use cube_packing::{all_rotations, Coordinate, Hitmap, HitmapBuilder, Rotation};

fn at(x: i32, y: i32, z: i32) -> Coordinate {
    Coordinate { x, y, z }
}

fn cube() -> Vec<Coordinate> {
    let mut cells = Vec::new();
    for x in -1..=1 {
        for y in -1..=1 {
            for z in -1..=1 {
                cells.push(at(x, y, z));
            }
        }
    }
    cells
}

fn first_piece() -> Hitmap {
    Hitmap::from_coordinates(vec![
        at(-1, -1, -1),
        at(0, -1, -1),
        at(1, -1, -1),
        at(1, -1, 0),
        at(-1, -1, 0),
        at(-1, 0, -1),
        at(-1, 1, -1),
    ])
}

#[test]
fn index_counts_x_by_ones_y_by_threes_z_by_nines() {
    assert_eq!(Hitmap::coordinate_to_index(&at(-1, -1, -1)), 0);
    assert_eq!(Hitmap::coordinate_to_index(&at(0, -1, -1)), 1);
    assert_eq!(Hitmap::coordinate_to_index(&at(-1, 0, -1)), 3);
    assert_eq!(Hitmap::coordinate_to_index(&at(-1, -1, 0)), 9);
    assert_eq!(Hitmap::coordinate_to_index(&at(0, 0, 0)), 13);
    assert_eq!(Hitmap::coordinate_to_index(&at(1, -1, 0)), 11);
    assert_eq!(Hitmap::coordinate_to_index(&at(1, 1, 1)), 26);
}

#[test]
fn index_is_a_bijection_onto_0_to_26() {
    let mut seen = [false; 27];
    for cell in cube() {
        let index = Hitmap::coordinate_to_index(&cell);
        assert!((0..27).contains(&index));
        assert!(!seen[index as usize]);
        seen[index as usize] = true;
    }
    assert!(seen.iter().all(|s| *s));
}

#[test]
fn index_and_cell_round_trip() {
    for cell in cube() {
        let index = Hitmap::coordinate_to_index(&cell);
        let mask = Hitmap::empty().add(cell);
        assert_eq!(mask, Hitmap(1 << index));
        let back = mask.coordinates();
        assert_eq!(back, vec![cell]);
        assert_eq!(Hitmap::coordinate_to_index(&back[0]), index);
    }
}

#[test]
fn empty_has_no_cell() {
    assert_eq!(Hitmap::empty(), Hitmap(0));
    assert!(Hitmap::empty().coordinates().is_empty());
    assert_eq!(Hitmap::from_coordinates(Vec::new()), Hitmap(0));
}

#[test]
fn add_sets_one_bit_and_keeps_the_others() {
    let mask = Hitmap(0b101).add(at(0, -1, -1));
    assert_eq!(mask, Hitmap(0b111));
    assert_eq!(mask.add(at(0, -1, -1)), mask);
    assert_eq!(Hitmap::empty().add(at(1, 1, 1)), Hitmap(1 << 26));
}

#[test]
fn from_coordinates_is_the_union_of_the_cells() {
    assert_eq!(first_piece(), Hitmap(0xA4F));
    let twice = Hitmap::from_coordinates(vec![at(0, 0, 0), at(0, 0, 0), at(-1, -1, -1)]);
    assert_eq!(twice, Hitmap((1 << 13) | 1));
    assert_eq!(Hitmap::from_coordinates(cube()), Hitmap(0x7FF_FFFF));
}

#[test]
fn coordinates_come_with_x_slowest_and_z_fastest() {
    let mask =
        Hitmap::from_coordinates(vec![at(1, 1, 1), at(-1, 1, 0), at(-1, -1, 1), at(0, 0, 0)]);
    assert_eq!(mask.coordinates(), vec![at(-1, -1, 1), at(-1, 1, 0), at(0, 0, 0), at(1, 1, 1)]);
    assert_eq!(Hitmap(0x7FF_FFFF).coordinates(), cube());
}

#[test]
fn coordinates_of_the_first_piece() {
    assert_eq!(
        Hitmap(0xA4F).coordinates(),
        vec![
            at(-1, -1, -1),
            at(-1, -1, 0),
            at(-1, 0, -1),
            at(-1, 1, -1),
            at(0, -1, -1),
            at(1, -1, -1),
            at(1, -1, 0),
        ]
    );
}

#[test]
fn coordinates_and_from_coordinates_round_trip() {
    for mask in [0u32, 1, 0xA4F, 0x149E00, 0x2000, 0x7FF_FFFF, 0x555_5555, 0x400_0001] {
        assert_eq!(Hitmap::from_coordinates(Hitmap(mask).coordinates()), Hitmap(mask));
    }
}

#[test]
fn rotate_moves_every_cell() {
    // z90 takes (1, -1, -1) to (1, 1, -1): cell 2 to cell 8.
    assert_eq!(Hitmap(1 << 2).rotate(&Rotation::z90()), Hitmap(1 << 8));
    // x90 takes (x, y, z) to (x, -z, y).
    let mask = Hitmap::from_coordinates(vec![at(1, 0, 1), at(-1, -1, 0)]);
    let turned = Hitmap::from_coordinates(vec![at(1, -1, 0), at(-1, 0, -1)]);
    assert_eq!(mask.rotate(&Rotation::x90()), turned);
    // The centre stays where it is.
    for r in all_rotations() {
        assert_eq!(Hitmap(1 << 13).rotate(&r), Hitmap(1 << 13));
    }
}

#[test]
fn rotate_by_the_empty_rotation_is_a_no_op() {
    for mask in [0u32, 1, 0xA4F, 0x149E00, 0x7FF_FFFF, 0x123_4567] {
        assert_eq!(Hitmap(mask).rotate(&Rotation::empty()), Hitmap(mask));
    }
}

#[test]
fn rotate_and_rotate_back_restores_the_mask() {
    let all = all_rotations();
    for r in &all {
        let inverse = all.iter().find(|b| b.multiply(r) == Rotation::empty()).unwrap();
        for mask in [0u32, 1, 0xA4F, 0x149E00, 0x7FF_FFFF, 0x123_4567] {
            let turned = Hitmap(mask).rotate(r);
            assert_eq!(turned.rotate(inverse), Hitmap(mask));
            assert_eq!(turned.0.count_ones(), mask.count_ones());
        }
    }
}

#[test]
fn rotate_twice_is_rotate_by_the_product() {
    let all = all_rotations();
    for p in &all {
        for q in &all {
            let mask = Hitmap(0xA4F);
            assert_eq!(mask.rotate(q).rotate(p), mask.rotate(&p.multiply(q)));
        }
    }
}

#[test]
fn shift_moves_every_cell() {
    assert_eq!(Hitmap(0xA4F).shift(at(0, 0, 1)), Hitmap(0xA4F << 9));
    assert_eq!(Hitmap(0xA4F).shift(at(0, 0, 0)), Hitmap(0xA4F));
    assert_eq!(Hitmap(1 << 13).shift(at(1, 1, 1)), Hitmap(1 << 26));
    assert_eq!(Hitmap(1 << 13).shift(at(-1, 0, 0)), Hitmap(1 << 12));
    assert_eq!(Hitmap(0).shift(at(5, 5, 5)), Hitmap(0));
}

#[test]
fn masks_are_ordered_as_integers() {
    assert!(Hitmap(3) < Hitmap(4));
    assert!(Hitmap(0x149E00) > Hitmap(0xA4F));
    let mut masks = vec![Hitmap(7), Hitmap(0), Hitmap(0x7FF_FFFF), Hitmap(2)];
    masks.sort();
    assert_eq!(masks, vec![Hitmap(0), Hitmap(2), Hitmap(7), Hitmap(0x7FF_FFFF)]);
}

#[test]
fn builder_marks_the_cell_it_starts_at() {
    let builder = HitmapBuilder::new(at(0, 0, 0));
    assert_eq!(builder.hitmap, Hitmap(1 << 13));
    assert_eq!(builder.coordinate, at(0, 0, 0));
}

#[test]
fn builder_shift_steps_and_marks() {
    let builder = HitmapBuilder::new(at(-1, -1, -1)).shift(at(1, 0, 0));
    assert_eq!(builder.coordinate, at(0, -1, -1));
    assert_eq!(builder.hitmap, Hitmap(0b11));
}

#[test]
fn builder_teleport_jumps_and_marks() {
    let builder = HitmapBuilder::new(at(-1, -1, -1)).teleport(at(1, 1, 1));
    assert_eq!(builder.coordinate, at(1, 1, 1));
    assert_eq!(builder.hitmap, Hitmap((1 << 26) | 1));
    // Back at a marked cell nothing new is marked.
    let back = builder.teleport(at(-1, -1, -1));
    assert_eq!(back.coordinate, at(-1, -1, -1));
    assert_eq!(back.hitmap, Hitmap((1 << 26) | 1));
}

#[test]
fn builder_builds_the_first_piece() {
    let x = at(1, 0, 0);
    let y = at(0, 1, 0);
    let z = at(0, 0, 1);
    let corner = at(-1, -1, -1);
    let builder = HitmapBuilder::new(corner)
        .shift(x)
        .shift(x)
        .shift(z)
        .teleport(corner)
        .shift(z)
        .teleport(corner)
        .shift(y)
        .shift(y);
    assert_eq!(builder.hitmap, Hitmap(0xA4F));
    assert_eq!(builder.hitmap, first_piece());
    assert_eq!(builder.coordinate, at(-1, 1, -1));
    assert_eq!(builder.hitmap.coordinates().len(), 7);
}

#[test]
fn coordinates_print_as_triples() {
    let cells = Hitmap(0b11).coordinates();
    assert_eq!(
        format!("{:?}", cells),
        "[Coordinate { x: -1, y: -1, z: -1 }, Coordinate { x: 0, y: -1, z: -1 }]"
    );
}
