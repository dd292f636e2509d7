use sudoxu::area::FoldedArea;
use sudoxu::cell::{Cell, CellMask};
use sudoxu::filter::Filter;
use sudoxu::grid::Grid;
use sudoxu::idx::{AreaIdx, GridIdx};
use sudoxu::num::Num;

fn area(a: usize) -> AreaIdx {
    AreaIdx::new(a).unwrap()
}

#[test]
fn count_words() {
    // box 0 lanes: digit 1 in all three lanes, 2 in two, 3 in one, 4 in none
    let folds = [
        [0b000_000_111_0, 0b000_000_011_0, 0b000_000_001_0],
        [0, 0, 0],
        [0, 0, 0],
    ];
    let fa = FoldedArea::new(folds, [0; 3], area(3));
    assert_eq!(fa.count::<3>()[0], 0b000_000_001_0);
    assert_eq!(fa.count::<2>()[0], 0b000_000_010_0);
    assert_eq!(fa.count::<1>()[0], 0b000_000_100_0);
    assert_eq!(fa.count::<0>()[0], 0b111_111_000_0);
    assert_eq!(fa.count::<0>()[1], 0b111_111_111_0);
}

#[test]
fn single_line_removes_from_other_boxes() {
    // digit 5 lies only in lane 1 of box 0; boxes 1 and 2 hold it in every lane
    let five = 0b000_010_000_0;
    let rest = 0b111_101_111_0;
    let folds = [
        [rest, rest | five, rest],
        [rest | five, rest | five, rest | five],
        [rest | five, rest | five, rest | five],
    ];
    let mut fa = FoldedArea::new(folds, [0; 3], area(3));
    assert!(fa.single_lines());
    let filters = fa.get_filters();
    // horizontal band 3: box 0 is grid box 0, lane 1 is grid row 1
    for f in filters.iter() {
        let p = f.idx.to_usize();
        let expected = if p / 9 == 1 && p % 9 >= 3 { five } else { 0 };
        assert_eq!(f.mask.to_u16(), expected, "cell {p}");
    }
    let mut again = FoldedArea::new(folds, [0; 3], area(3));
    again.apply_masks();
    assert!(again.single_lines());
}

#[test]
fn single_line_skips_known_digits() {
    let five = 0b000_010_000_0;
    let folds = [[0, five, 0], [five, five, five], [five, five, five]];
    let mut fa = FoldedArea::new(folds, [five | 1, 0, 0], area(0));
    assert!(!fa.single_lines());
}

#[test]
fn double_line_keeps_the_remaining_lane() {
    // digit 2 in lanes 0 and 1 of boxes 1 and 2: box 0 must hold it in lane 2
    let two = 0b000_000_010_0;
    let folds = [[two, two, two], [two, two, 0], [two, two, 0]];
    let mut fa = FoldedArea::new(folds, [0; 3], area(3));
    assert!(fa.double_lines());
    let filters = fa.get_filters();
    for f in filters.iter() {
        let p = f.idx.to_usize();
        let expected = if p / 9 <= 1 && p % 9 < 3 { two } else { 0 };
        assert_eq!(f.mask.to_u16(), expected, "cell {p}");
    }
}

#[test]
fn double_line_needs_matching_lanes() {
    let two = 0b000_000_010_0;
    let folds = [[two, two, two], [two, two, 0], [0, two, two]];
    let mut fa = FoldedArea::new(folds, [0; 3], area(3));
    assert!(!fa.double_lines());
}

#[test]
fn vertical_band_filters_follow_columns() {
    let mut g = Grid::default();
    let three = CellMask::from_known(Num::new(3).unwrap());
    // box 0: 3 only in column 0
    for p in [1, 2, 10, 11, 19, 20] {
        g.apply_filter(Filter::new(three, GridIdx::new(p).unwrap()));
    }
    let mut fa = g.get_folded_area(area(0));
    assert!(fa.single_lines());
    let filters = fa.get_filters();
    g.apply_filters(&filters);
    for r in 0..9 {
        let p = 9 * r;
        let has3 = g.get_cell(GridIdx::new(p).unwrap()).to_u16() & 0b000_000_100_0 != 0;
        assert_eq!(has3, r < 3, "row {r}");
    }
    assert_eq!(g.get_cell(GridIdx::new(28).unwrap()).to_u16(), 0b111_111_111_0);
}

#[test]
fn folded_area_known_words() {
    let mut g = Grid::default();
    g.set_cell(GridIdx::new(30).unwrap(), Cell::new_known(Num::new(8).unwrap()));
    let fa = g.get_folded_area(area(4));
    let mut copy = g.get_folded_area(area(4));
    assert!(!copy.single_lines());
    assert_eq!(fa.get_filters().iter().filter(|f| f.mask.to_u16() != 0).count(), 0);
}
