use bit_checkers::bit_grid::SetIndexIterator;
use bit_checkers::BitGrid;

#[test]
fn get_at_index_reads_the_mask() {
    let grid = BitGrid::new_from_mask(0b110);
    assert_eq!(grid.get_at_index(0), false);
    assert_eq!(grid.get_at_index(1), true);
    assert_eq!(grid.get_at_index(2), true);
}

#[test]
fn get_at_cell_is_row_major() {
    let grid = BitGrid::new_from_mask(0b01100000110);
    assert_eq!(grid.get_at_cell(0, 0), false);
    assert_eq!(grid.get_at_cell(1, 0), true);
    assert_eq!(grid.get_at_cell(0, 1), true);
    assert_eq!(BitGrid::index_of_cell(3, 5), 43);
    assert_eq!(BitGrid::cell_at_index(43), (3, 5));
    assert_eq!(BitGrid::cell_at_index(63), (7, 7));
}

#[test]
fn set_then_get() {
    let grid = BitGrid::new().set_at_index(5, true);
    assert_eq!(grid.get_at_index(5), true);
    let grid = BitGrid::new().set_at_cell(5, 0, true);
    assert_eq!(grid.get_at_cell(5, 0), true);
    let full = BitGrid::new().negate();
    for y in 0..8 {
        for x in 0..8 {
            assert!(full.set_at_cell(x, y, true).get_at_cell(x, y));
            assert!(!full.set_at_cell(x, y, false).get_at_cell(x, y));
            assert!(BitGrid::new().set_at_cell(x, y, true).get_at_cell(x, y));
            let once = full.set_at_cell(x, y, false);
            let twice = once.set_at_cell(x, y, false);
            assert_eq!(once.iter_set_indexes(), twice.iter_set_indexes());
        }
    }
    // other cells are untouched
    let grid = BitGrid::new_from_mask(0b1010).set_at_index(1, false).set_at_index(63, true);
    assert_eq!(grid.iter_set_indexes(), vec![3, 63]);
}

#[test]
fn shift_moves_cells() {
    let grid = BitGrid::new().set_at_cell(1, 1, true).shift(1, 2);
    assert_eq!(grid.get_at_cell(1, 1), false, "Position before shift is false");
    assert_eq!(grid.get_at_cell(3, 2), true, "Position after shift is true");
    let back = grid.shift(-1, -2);
    assert_eq!(back.iter_set_cells(), vec![(1, 1)]);
    // one shift of the packed word: past the right edge is the next row
    let wrapped = BitGrid::new().set_at_cell(7, 0, true).shift(0, 1);
    assert_eq!(wrapped.iter_set_cells(), vec![(0, 1)]);
    // cells shifted out of the word are gone
    let gone = BitGrid::new().set_at_cell(0, 7, true).shift(1, 0);
    assert!(gone.none());
    let gone = BitGrid::new().set_at_cell(7, 0, true).shift(-1, 0);
    assert!(gone.none());
}

#[test]
fn intersect_union_negate() {
    let grid1 = BitGrid::new_from_mask(0b11001);
    let grid2 = BitGrid::new_from_mask(0b10101);
    let intersection = grid1.intersect(grid2);
    assert_eq!(intersection.iter_set_indexes(), vec![0, 4]);
    let union = grid1.union(grid2);
    assert_eq!(union.iter_set_indexes(), vec![0, 2, 3, 4]);
    let negation = BitGrid::new_from_mask(0b01).negate();
    assert_eq!(negation.get_at_index(0), false);
    assert_eq!(negation.get_at_index(1), true);
    assert_eq!(negation.get_at_index(63), true);
}

#[test]
fn self_operations_are_identities() {
    for mask in [0u64, 1, 0x55AA55AA55AA55AA, u64::MAX, 0x8000_0000_0000_0001] {
        let b = BitGrid::new_from_mask(mask);
        assert_eq!(b.intersect(b).iter_set_indexes(), b.iter_set_indexes());
        assert_eq!(b.union(b).iter_set_indexes(), b.iter_set_indexes());
        assert_eq!(b.negate().negate().iter_set_indexes(), b.iter_set_indexes());
    }
}

#[test]
fn emptiness() {
    let empty_grid = BitGrid::new();
    let non_empty_grid = empty_grid.set_at_index(0, true);
    assert_eq!(empty_grid.none(), true);
    assert_eq!(non_empty_grid.none(), false);
    assert!(!BitGrid::new().set_at_cell(7, 7, true).none());
    assert!(BitGrid::new_from_mask(0).none());
    assert!(!BitGrid::new_from_mask(1 << 63).none());
}

#[test]
fn set_indexes_and_cells_in_ascending_order() {
    let grid = BitGrid::new_from_mask(0b10100);
    assert_eq!(grid.iter_set_indexes(), vec![2, 4]);
    let grid = BitGrid::new_from_mask(0b100000100);
    assert_eq!(grid.iter_set_cells(), vec![(2, 0), (0, 1)]);
    assert_eq!(BitGrid::new().iter_set_indexes(), Vec::<u32>::new());
    let all = BitGrid::new().negate().iter_set_indexes();
    assert_eq!(all, (0..64).collect::<Vec<u32>>());
}

#[test]
fn set_index_iterator_takes_the_lowest_first() {
    let mut it = BitGrid::new_from_mask(0b1001_0000_0010).set_index_iter();
    assert_eq!(it.next(), Some(1));
    assert_eq!(it.next(), Some(8));
    assert_eq!(it.next(), Some(11));
    assert_eq!(it.next(), None);
    assert_eq!(it.next(), None);
    let _: &mut SetIndexIterator = &mut it;
}

#[test]
fn cell_iterator_reads_every_cell() {
    let mut it = BitGrid::new_from_mask(0b101).into_iter();
    assert_eq!(it.next(), Some(true));
    assert_eq!(it.next(), Some(false));
    assert_eq!(it.next(), Some(true));
    let mut n = 3;
    while let Some(v) = it.next() {
        assert!(!v);
        n += 1;
    }
    assert_eq!(n, 64);
}
