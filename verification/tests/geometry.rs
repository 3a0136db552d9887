use cube_packing::{all_rotations, Coordinate, Rotation};

fn at(x: i32, y: i32, z: i32) -> Coordinate {
    Coordinate { x, y, z }
}

fn columns(r: &Rotation) -> [Coordinate; 3] {
    [r.rotate(at(1, 0, 0)), r.rotate(at(0, 1, 0)), r.rotate(at(0, 0, 1))]
}

fn dot(a: Coordinate, b: Coordinate) -> i32 {
    a.x * b.x + a.y * b.y + a.z * b.z
}

fn determinant(r: &Rotation) -> i32 {
    let [a, b, c] = columns(r);
    a.x * (b.y * c.z - b.z * c.y) - b.x * (a.y * c.z - a.z * c.y) + c.x * (a.y * b.z - a.z * b.y)
}

#[test]
fn shift_adds_component_by_component() {
    let moved = at(-1, 0, 1).shift(at(1, 1, -2));
    assert_eq!(moved, at(0, 1, -1));
}

#[test]
fn shift_by_zero_changes_nothing() {
    assert_eq!(at(1, -1, 0).shift(at(0, 0, 0)), at(1, -1, 0));
}

#[test]
fn empty_rotation_moves_nothing() {
    let e = Rotation::empty();
    for x in -1..=1 {
        for y in -1..=1 {
            for z in -1..=1 {
                assert_eq!(e.rotate(at(x, y, z)), at(x, y, z));
            }
        }
    }
}

#[test]
fn quarter_turns_move_the_axes() {
    assert_eq!(Rotation::x90().rotate(at(0, 1, 0)), at(0, 0, 1));
    assert_eq!(Rotation::x90().rotate(at(0, 0, 1)), at(0, -1, 0));
    assert_eq!(Rotation::x90().rotate(at(1, 0, 0)), at(1, 0, 0));
    assert_eq!(Rotation::y90().rotate(at(0, 0, 1)), at(1, 0, 0));
    assert_eq!(Rotation::y90().rotate(at(1, 0, 0)), at(0, 0, -1));
    assert_eq!(Rotation::y90().rotate(at(0, 1, 0)), at(0, 1, 0));
    assert_eq!(Rotation::z90().rotate(at(1, 0, 0)), at(0, 1, 0));
    assert_eq!(Rotation::z90().rotate(at(0, 1, 0)), at(-1, 0, 0));
    assert_eq!(Rotation::z90().rotate(at(0, 0, 1)), at(0, 0, 1));
}

#[test]
fn rotate_is_the_matrix_vector_product() {
    // x90 takes (x, y, z) to (x, -z, y).
    assert_eq!(Rotation::x90().rotate(at(1, -1, 1)), at(1, -1, -1));
    // z90 takes (x, y, z) to (-y, x, z).
    assert_eq!(Rotation::z90().rotate(at(1, -1, 0)), at(1, 1, 0));
    // The product is linear, also outside the cube.
    assert_eq!(Rotation::y90().rotate(at(5, -7, 11)), at(11, -7, -5));
}

#[test]
fn from_matrix_keeps_the_rows() {
    let r = Rotation::from_matrix([[0, -1, 0], [1, 0, 0], [0, 0, 1]]);
    assert_eq!(r, Rotation::z90());
    assert!(r.same_as(&Rotation::z90()));
    assert_eq!(Rotation::from_matrix([[1, 0, 0], [0, 1, 0], [0, 0, 1]]), Rotation::empty());
    assert_ne!(r, Rotation::x90());
    assert!(!r.same_as(&Rotation::x90()));
}

#[test]
fn multiply_turns_by_the_right_factor_first() {
    let xy = Rotation::x90().multiply(&Rotation::y90());
    let v = at(1, 0, -1);
    assert_eq!(xy.rotate(v), Rotation::x90().rotate(Rotation::y90().rotate(v)));
    assert_eq!(xy.rotate(v), at(-1, 1, 0));
    let yx = Rotation::y90().multiply(&Rotation::x90());
    assert_ne!(xy, yx);
}

#[test]
fn multiply_by_the_empty_rotation_changes_nothing() {
    let e = Rotation::empty();
    for r in all_rotations() {
        assert_eq!(r.multiply(&e), r);
        assert_eq!(e.multiply(&r), r);
    }
}

#[test]
fn four_quarter_turns_are_a_full_turn() {
    for g in [Rotation::x90(), Rotation::y90(), Rotation::z90()] {
        let twice = g.multiply(&g);
        assert_ne!(twice, Rotation::empty());
        assert_eq!(twice.multiply(&twice), Rotation::empty());
    }
}

#[test]
fn there_are_24_rotations_and_no_two_are_equal() {
    let all = all_rotations();
    assert_eq!(all.len(), 24);
    for i in 0..all.len() {
        for j in 0..all.len() {
            assert_eq!(all[i] == all[j], i == j);
        }
    }
}

#[test]
fn every_rotation_is_orthonormal_with_determinant_one() {
    for r in all_rotations() {
        let cols = columns(&r);
        for i in 0..3 {
            for j in 0..3 {
                assert_eq!(dot(cols[i], cols[j]), if i == j { 1 } else { 0 });
            }
        }
        assert_eq!(determinant(&r), 1);
    }
}

#[test]
fn the_rotations_are_closed_under_composition() {
    let all = all_rotations();
    for a in &all {
        for b in &all {
            let product = a.multiply(b);
            assert!(all.iter().any(|r| *r == product));
        }
    }
}

#[test]
fn every_rotation_has_its_inverse_among_the_rotations() {
    let all = all_rotations();
    for a in &all {
        let inverses = all.iter().filter(|b| a.multiply(b) == Rotation::empty()).count();
        assert_eq!(inverses, 1);
    }
}

#[test]
fn the_quarter_turns_and_the_empty_rotation_are_among_the_rotations() {
    let all = all_rotations();
    assert!(all.contains(&Rotation::empty()));
    assert!(all.contains(&Rotation::x90()));
    assert!(all.contains(&Rotation::y90()));
    assert!(all.contains(&Rotation::z90()));
    let product = Rotation::x90().multiply(&Rotation::y90()).multiply(&Rotation::z90());
    assert!(all.contains(&product));
}

#[test]
fn no_reflection_is_among_the_rotations() {
    // The mirror image in the plane x = 0 takes (1, 0, 0) to (-1, 0, 0) and
    // keeps the other two axes.
    for r in all_rotations() {
        let [a, b, c] = columns(&r);
        assert!(!(a == at(-1, 0, 0) && b == at(0, 1, 0) && c == at(0, 0, 1)));
    }
}

#[test]
fn a_mirror_image_is_not_among_the_rotations() {
    let mirror = Rotation::from_matrix([[-1, 0, 0], [0, 1, 0], [0, 0, 1]]);
    assert!(!all_rotations().contains(&mirror));
    assert!(all_rotations().iter().all(|r| !r.same_as(&mirror)));
}
