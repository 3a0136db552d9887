use cube_packing::{all_rotations, Cage, Hitmap, PieceDoesNotFit, Rotation};

fn cage_of(pieces: &[u32]) -> Cage {
    let mut cage = Cage::new();
    for piece in pieces {
        cage = cage.add(Hitmap(*piece)).unwrap();
    }
    cage
}

fn turned(cage: &Cage, rotation: &Rotation) -> (Hitmap, Vec<Hitmap>) {
    (cage.hitmap().rotate(rotation), cage.pieces().iter().map(|p| p.rotate(rotation)).collect())
}

#[test]
fn new_cage_is_empty() {
    let cage = Cage::new();
    assert_eq!(cage.hitmap(), Hitmap(0));
    assert!(cage.pieces().is_empty());
}

#[test]
fn add_joins_the_cells_and_keeps_the_piece() {
    let cage = Cage::new().add(Hitmap(0xA4F)).unwrap();
    assert_eq!(cage.hitmap(), Hitmap(0xA4F));
    assert_eq!(cage.pieces(), &vec![Hitmap(0xA4F)]);
    let cage = cage.add(Hitmap(0x30)).unwrap();
    assert_eq!(cage.hitmap(), Hitmap(0xA7F));
    assert_eq!(cage.pieces(), &vec![Hitmap(0x30), Hitmap(0xA4F)]);
}

#[test]
fn add_leaves_the_cage_as_it_was() {
    let cage = cage_of(&[0b11]);
    let bigger = cage.add(Hitmap(0b100)).unwrap();
    assert_eq!(cage.hitmap(), Hitmap(0b11));
    assert_eq!(cage.pieces(), &vec![Hitmap(0b11)]);
    assert_eq!(bigger.hitmap(), Hitmap(0b111));
}

#[test]
fn add_keeps_the_pieces_sorted() {
    let cage = cage_of(&[0x400, 0x1, 0x20, 0x4000, 0x2]);
    assert_eq!(
        cage.pieces(),
        &vec![Hitmap(0x1), Hitmap(0x2), Hitmap(0x20), Hitmap(0x400), Hitmap(0x4000)]
    );
    assert_eq!(cage.hitmap(), Hitmap(0x4423));
}

#[test]
fn add_fails_when_a_cell_is_shared() {
    let cage = cage_of(&[0xA4F]);
    assert_eq!(cage.add(Hitmap(0x800)).err(), Some(PieceDoesNotFit));
    assert!(cage.add(Hitmap(0xA4F)).is_err());
    assert!(cage.add(Hitmap(0x7FF_FFFF)).is_err());
}

#[test]
fn add_fails_exactly_when_a_bit_is_shared() {
    let cage = cage_of(&[0b0110_1001]);
    for piece in 0u32..256 {
        let shares = (0..8).any(|bit| (0b0110_1001u32 >> bit) & 1 == 1 && (piece >> bit) & 1 == 1);
        assert_eq!(cage.add(Hitmap(piece)).is_err(), shares);
    }
}

#[test]
fn add_in_either_order_gives_the_same_cage() {
    let cage = cage_of(&[0x100]);
    let ab = cage.add(Hitmap(0xA4F)).unwrap().add(Hitmap(0x70_0000)).unwrap();
    let ba = cage.add(Hitmap(0x70_0000)).unwrap().add(Hitmap(0xA4F)).unwrap();
    assert_eq!(ab.hitmap(), ba.hitmap());
    assert_eq!(ab.hitmap(), Hitmap(0x70_0B4F));
    assert_eq!(ab.pieces(), &vec![Hitmap(0x100), Hitmap(0xA4F), Hitmap(0x70_0000)]);
    assert_eq!(ab.pieces(), ba.pieces());
    assert_eq!(ab, ba);
    assert!(ab.same_as(&ba));
}

#[test]
fn the_same_piece_twice_does_not_fit() {
    let cage = cage_of(&[0x7]);
    assert!(cage.add(Hitmap(0x7)).is_err());
}

#[test]
fn same_as_compares_cells_and_pieces() {
    assert!(cage_of(&[1, 2]).same_as(&cage_of(&[2, 1])));
    assert!(!cage_of(&[1, 2]).same_as(&cage_of(&[3])));
    assert!(!cage_of(&[1, 2]).same_as(&cage_of(&[1])));
    assert!(!cage_of(&[1]).same_as(&cage_of(&[2])));
    assert!(Cage::new().same_as(&Cage::new()));
}

#[test]
fn canonicalize_finds_the_smallest_mask_of_all_turns() {
    let rotations = all_rotations();
    let cage = cage_of(&[0x149E00, 0x2000_000]);
    let canon = cage.canonicalize(&rotations);
    let smallest = rotations.iter().map(|r| cage.hitmap().rotate(r)).min().unwrap();
    assert_eq!(canon.hitmap(), smallest);
    assert!(canon.hitmap() <= cage.hitmap());
}

#[test]
fn canonicalize_turns_the_pieces_with_the_cells() {
    let rotations = all_rotations();
    let cage = cage_of(&[0x149E00, 0x2000_000]);
    let canon = cage.canonicalize(&rotations);
    let first = rotations
        .iter()
        .find(|r| cage.hitmap().rotate(r) == canon.hitmap())
        .unwrap();
    let (hitmap, pieces) = turned(&cage, first);
    assert_eq!(canon.hitmap(), hitmap);
    assert_eq!(canon.pieces(), &pieces);
    let union = canon.pieces().iter().fold(0, |all, piece| all | piece.0);
    assert_eq!(Hitmap(union), canon.hitmap());
}

#[test]
fn canonicalize_of_the_first_piece() {
    let rotations = all_rotations();
    // No turn of the piece has a smaller mask than the piece as it is built.
    for r in &rotations {
        let canon = Cage::new().add(Hitmap(0xA4F).rotate(r)).unwrap().canonicalize(&rotations);
        assert_eq!(canon.hitmap(), Hitmap(0xA4F));
        assert_eq!(canon.pieces(), &vec![Hitmap(0xA4F)]);
    }
    // The piece one cell up is no turn of it.
    let canon = cage_of(&[0x149E00]).canonicalize(&rotations);
    assert_eq!(canon.hitmap(), Hitmap(40513));
    assert_eq!(canon.pieces(), &vec![Hitmap(40513)]);
}

#[test]
fn canonicalize_keeps_a_cage_that_no_turn_makes_smaller() {
    let rotations = all_rotations();
    // Every rotation keeps the centre, so every turn ties with the cage.
    let centre = cage_of(&[1 << 13]);
    assert_eq!(centre.canonicalize(&rotations), centre);
    let empty = Cage::new();
    assert_eq!(empty.canonicalize(&rotations), empty);
    // The whole cube in two parts: every turn has the same cells, and the
    // parts stay as they are.
    let whole = cage_of(&[0xA4F, 0x7FF_FFFF & !0xA4F]);
    assert_eq!(whole.canonicalize(&rotations), whole);
}

#[test]
fn canonicalize_without_rotations_is_the_cage() {
    let cage = cage_of(&[0x149E00]);
    assert_eq!(cage.canonicalize(&Vec::new()), cage);
}

#[test]
fn canonicalize_is_idempotent() {
    let rotations = all_rotations();
    for pieces in [vec![0x149E00u32], vec![0x149E00, 0x2000_000], vec![0x4000_00, 0x1], vec![]] {
        let canon = cage_of(&pieces).canonicalize(&rotations);
        assert_eq!(canon.canonicalize(&rotations), canon);
    }
}

#[test]
fn turns_of_a_cage_have_the_same_canonical_cells() {
    let rotations = all_rotations();
    let cage = cage_of(&[0xA4F, 0x2000_000]);
    let canon = cage.canonicalize(&rotations);
    for r in &rotations {
        let mut turn = Cage::new();
        for piece in cage.pieces() {
            turn = turn.add(piece.rotate(r)).unwrap();
        }
        assert_eq!(turn.canonicalize(&rotations).hitmap(), canon.hitmap());
    }
}

#[test]
fn turns_of_a_cage_with_one_piece_have_the_same_representative() {
    let rotations = all_rotations();
    // No rotation but the empty one keeps the cells of this piece in place.
    let cage = cage_of(&[0xA4F]);
    let canon = cage.canonicalize(&rotations);
    for r in &rotations {
        let turn = Cage::new().add(Hitmap(0xA4F).rotate(r)).unwrap();
        assert_eq!(turn.canonicalize(&rotations), canon);
    }
}

#[test]
fn turns_of_a_cage_with_symmetric_cells_can_have_different_representatives() {
    let rotations = all_rotations();
    // The two parts fill the cube: every turn has the same cells, no turn is
    // smaller, and each cage stays as it is.
    let parts = [Hitmap(0xA4F), Hitmap(0x7FF_FFFF & !0xA4F)];
    let cage = Cage::new().add(parts[0]).unwrap().add(parts[1]).unwrap();
    let quarter = Rotation::x90();
    let turn = Cage::new()
        .add(parts[0].rotate(&quarter))
        .unwrap()
        .add(parts[1].rotate(&quarter))
        .unwrap();
    assert_eq!(cage.canonicalize(&rotations).hitmap(), turn.canonicalize(&rotations).hitmap());
    assert_eq!(cage.canonicalize(&rotations), cage);
    assert_eq!(turn.canonicalize(&rotations), turn);
    assert_ne!(cage.canonicalize(&rotations), turn.canonicalize(&rotations));
}

#[test]
fn a_solution_has_exactly_three_pieces() {
    assert!(!Cage::new().is_solution());
    assert!(!cage_of(&[1, 2]).is_solution());
    assert!(cage_of(&[1, 2, 4]).is_solution());
    assert!(!cage_of(&[1, 2, 4, 8]).is_solution());
}

#[test]
fn the_order_of_packing_does_not_matter() {
    let pieces = [0xA4Fu32, 0x70_0000, 0x100, 0x30];
    let expected = cage_of(&pieces);
    let orders = [[3, 2, 1, 0], [1, 0, 3, 2], [2, 3, 0, 1], [0, 2, 1, 3]];
    for order in orders {
        let mut cage = Cage::new();
        for k in order {
            cage = cage.add(Hitmap(pieces[k])).unwrap();
        }
        assert_eq!(cage, expected);
        assert_eq!(
            cage.pieces(),
            &vec![Hitmap(0x30), Hitmap(0x100), Hitmap(0xA4F), Hitmap(0x70_0000)]
        );
        assert_eq!(cage.hitmap(), Hitmap(0x70_0B7F));
    }
}

#[test]
fn the_same_shape_fits_again_in_another_place() {
    // A bar of three cells along x, and the same bar one layer up.
    let cage = cage_of(&[0x7]).add(Hitmap(0x7 << 9)).unwrap();
    assert_eq!(cage.pieces(), &vec![Hitmap(0x7), Hitmap(0x7 << 9)]);
    assert_eq!(cage.hitmap(), Hitmap(0xE07));
}
