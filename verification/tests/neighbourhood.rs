use cellular_automata::neighbourhood::Neighbourhood;

#[test]
fn individual_is_the_cell_itself() {
    assert_eq!(Neighbourhood::Individual.get_neighbours(), vec![(0, 0)]);
}

#[test]
fn moore_of_range_one_has_the_eight_classic_neighbours() {
    let offsets = Neighbourhood::Moore { range: 1, include_self: false }.get_neighbours();
    assert_eq!(offsets.len(), 8);
    assert!(!offsets.contains(&(0, 0)));
    assert_eq!(
        offsets,
        vec![(-1, -1), (-1, 0), (-1, 1), (0, -1), (0, 1), (1, -1), (1, 0), (1, 1)]
    );
}

#[test]
fn moore_with_the_cell_itself() {
    let offsets = Neighbourhood::Moore { range: 1, include_self: true }.get_neighbours();
    assert_eq!(
        offsets,
        vec![(-1, -1), (-1, 0), (-1, 1), (0, -1), (0, 0), (0, 1), (1, -1), (1, 0), (1, 1)]
    );
}

#[test]
fn moore_of_range_two_fills_the_square() {
    let offsets = Neighbourhood::Moore { range: 2, include_self: false }.get_neighbours();
    assert_eq!(offsets.len(), 24);
    for dx in -2isize..=2 {
        for dy in -2isize..=2 {
            assert_eq!(offsets.contains(&(dx, dy)), (dx, dy) != (0, 0));
        }
    }
}

#[test]
fn moore_of_range_zero() {
    assert!(Neighbourhood::Moore { range: 0, include_self: false }.get_neighbours().is_empty());
    assert_eq!(
        Neighbourhood::Moore { range: 0, include_self: true }.get_neighbours(),
        vec![(0, 0)]
    );
}

#[test]
fn von_neumann_of_range_two_with_the_cell_has_nine_offsets() {
    let offsets = Neighbourhood::VonNeuman { range: 2, include_self: true }.get_neighbours();
    assert_eq!(offsets.len(), 9);
    assert!(offsets.contains(&(0, 0)));
    assert_eq!(
        offsets,
        vec![(0, 0), (1, 0), (0, 1), (-1, 0), (0, -1), (2, 0), (0, 2), (-2, 0), (0, -2)]
    );
}

#[test]
fn von_neumann_without_the_cell() {
    let offsets = Neighbourhood::VonNeuman { range: 1, include_self: false }.get_neighbours();
    assert_eq!(offsets, vec![(1, 0), (0, 1), (-1, 0), (0, -1)]);
    assert!(Neighbourhood::VonNeuman { range: 0, include_self: false }
        .get_neighbours()
        .is_empty());
}

#[test]
fn the_offsets_are_the_same_at_every_call() {
    let shape = Neighbourhood::Moore { range: 3, include_self: false };
    assert_eq!(shape.get_neighbours(), shape.get_neighbours());
    assert_eq!(shape.get_neighbours().len(), 48);
}

#[test]
fn a_list_of_offsets_must_fit_in_memory() {
    assert!(Neighbourhood::Individual.is_listable());
    assert!(Neighbourhood::Moore { range: 0, include_self: false }.is_listable());
    assert!(Neighbourhood::Moore { range: 1000, include_self: true }.is_listable());
    assert!(Neighbourhood::VonNeuman { range: 1000, include_self: true }.is_listable());
    assert!(!Neighbourhood::Moore { range: usize::MAX, include_self: false }.is_listable());
    assert!(!Neighbourhood::Moore { range: usize::MAX / 2, include_self: true }.is_listable());
    assert!(!Neighbourhood::VonNeuman { range: usize::MAX, include_self: false }.is_listable());
    assert!(!Neighbourhood::VonNeuman { range: usize::MAX / 4 + 1, include_self: false }
        .is_listable());
    assert!(Neighbourhood::VonNeuman { range: usize::MAX / 4, include_self: false }.is_listable());
    assert!(Neighbourhood::VonNeuman { range: usize::MAX / 4, include_self: true }.is_listable());
    let side = (usize::MAX as f64).sqrt() as usize;
    assert!(!Neighbourhood::Moore { range: side, include_self: false }.is_listable());
    assert!(Neighbourhood::Moore { range: side / 2 - 1, include_self: false }.is_listable());
}
