use cube_packing::{all_rotations, Cage, Coordinate, Hitmap, Search};

fn in_cube(c: &Coordinate) -> bool {
    (-1..=1).contains(&c.x) && (-1..=1).contains(&c.y) && (-1..=1).contains(&c.z)
}

#[test]
fn candidates_are_the_turns_of_the_two_base_pieces() {
    let search = Search::new();
    let pieces = search.all_pieces();
    assert!(pieces.contains(&Hitmap(0xA4F)));
    assert!(pieces.contains(&Hitmap(0xA4F << 9)));
    for r in all_rotations() {
        assert!(pieces.contains(&Hitmap(0xA4F).rotate(&r)));
        assert!(pieces.contains(&Hitmap(0xA4F << 9).rotate(&r)));
    }
    let rotations = all_rotations();
    for piece in pieces {
        assert!(rotations
            .iter()
            .any(|r| Hitmap(0xA4F).rotate(r) == *piece || Hitmap(0xA4F << 9).rotate(r) == *piece));
    }
}

#[test]
fn candidates_hold_no_piece_twice() {
    let search = Search::new();
    let pieces = search.all_pieces();
    assert_eq!(pieces.len(), 48);
    for i in 0..pieces.len() {
        for j in 0..i {
            assert_ne!(pieces[i], pieces[j]);
        }
    }
}

#[test]
fn candidates_have_seven_cells_in_the_cube() {
    let search = Search::new();
    for piece in search.all_pieces() {
        let cells = piece.coordinates();
        assert_eq!(cells.len(), 7);
        assert!(cells.iter().all(in_cube));
        assert!(piece.0 < (1 << 27));
    }
}

#[test]
fn search_holds_the_whole_rotation_group() {
    let search = Search::new();
    assert_eq!(search.rotations(), &all_rotations());
}

#[test]
fn search_finds_a_packing_of_three_pieces() {
    let search = Search::new();
    let candidates = search.all_pieces().clone();
    let solutions = search.search();
    let three: Vec<&Cage> = solutions.iter().filter(|s| s.pieces().len() == 3).collect();
    assert!(!three.is_empty());
    for solution in three {
        let pieces = solution.pieces();
        for i in 0..3 {
            for j in 0..i {
                assert_eq!(pieces[i].0 & pieces[j].0, 0);
            }
            assert!(candidates.contains(&pieces[i]));
            let cells = pieces[i].coordinates();
            assert_eq!(cells.len(), 7);
            assert!(cells.iter().all(in_cube));
            for a in 0..cells.len() {
                for b in 0..a {
                    assert_ne!(cells[a], cells[b]);
                }
            }
        }
        assert_eq!(solution.hitmap().0, pieces[0].0 | pieces[1].0 | pieces[2].0);
        assert_eq!(solution.hitmap().0.count_ones(), 21);
    }
}

#[test]
fn search_returns_only_maximal_packings() {
    let search = Search::new();
    let candidates = search.all_pieces().clone();
    let solutions = search.search();
    assert!(!solutions.is_empty());
    for solution in &solutions {
        for piece in &candidates {
            assert!(solution.add(*piece).is_err());
            assert_ne!(solution.hitmap().0 & piece.0, 0);
        }
    }
}

#[test]
fn search_returns_every_representative_once() {
    let rotations = all_rotations();
    let solutions = Search::new().search();
    for i in 0..solutions.len() {
        for j in 0..i {
            assert_ne!(solutions[i], solutions[j]);
        }
        assert_eq!(solutions[i].canonicalize(&rotations), solutions[i]);
    }
}

#[test]
fn search_finds_24_representatives_and_6_of_three_pieces() {
    let solutions = Search::new().search();
    assert_eq!(solutions.len(), 24);
    assert_eq!(solutions.iter().filter(|s| s.pieces().len() == 3).count(), 6);
    assert_eq!(solutions.iter().filter(|s| s.is_solution()).count(), 6);
    assert_eq!(solutions.iter().filter(|s| s.pieces().len() == 2).count(), 18);
    // All packings of three pieces fill the same cells, up to rotation.
    for solution in solutions.iter().filter(|s| s.pieces().len() == 3) {
        assert_eq!(solution.hitmap(), Hitmap(65001342));
    }
}

#[test]
fn search_returns_the_representatives_of_packings_of_candidates() {
    let rotations = all_rotations();
    let search = Search::new();
    let candidates = search.all_pieces().clone();
    let solutions = search.search();
    // A packing that packs the first base piece first is maximal after one
    // or two more pieces; its representative is among the results.
    let start = Cage::new().add(Hitmap(0xA4F)).unwrap();
    let mut ends = 0;
    for second in &candidates {
        if let Ok(two) = start.add(*second) {
            let mut maximal = true;
            for third in &candidates {
                if let Ok(three) = two.add(*third) {
                    maximal = false;
                    assert!(candidates.iter().all(|p| three.add(*p).is_err()));
                    assert!(solutions.contains(&three.canonicalize(&rotations)));
                    ends += 1;
                }
            }
            if maximal {
                assert!(solutions.contains(&two.canonicalize(&rotations)));
                ends += 1;
            }
        }
    }
    assert!(ends > 0);
}
