use sudoxu::board::Board;
use sudoxu::cell::{CandidateError, Cell, CellMask};
use sudoxu::filter::Filter;
use sudoxu::grid::Grid;
use sudoxu::idx::{GridIdx, SectionIdx};
use sudoxu::num::Num;
use sudoxu::section::{Section, SectionInfo, SectionKind};

fn idx(i: usize) -> GridIdx {
    GridIdx::new(i).unwrap()
}

fn words(g: &Grid) -> Vec<u16> {
    (0..81).map(|i| g.get_cell(idx(i)).to_u16()).collect()
}

fn section_of(cells: [u16; 9]) -> Section {
    let info = SectionInfo::new(SectionKind::Row, SectionIdx::new(0).unwrap());
    Section::new(info, cells.map(Cell::new_unchecked))
}

#[test]
fn io_empty_board() {
    let s = std::string::String::from_utf8(vec![b'0'; 81]).unwrap();
    let b = Board::try_from(s.as_str()).unwrap();
    assert_eq!(Grid::from(b), Grid::default());
}

#[test]
fn fmt_empty_board() {
    let s = std::string::String::from_utf8(vec![b'0'; 81]).unwrap();
    let b = Board::try_from(&s).unwrap();
    assert_eq!(Grid::from(b), Grid::default());
}

#[test]
fn grid_idxs_of_sections() {
    let row = SectionInfo::new(SectionKind::Row, SectionIdx::new(1).unwrap()).grid_idxs();
    assert_eq!(row.map(|i| i.to_usize()), [9, 10, 11, 12, 13, 14, 15, 16, 17]);
    let col = SectionInfo::new(SectionKind::Column, SectionIdx::new(2).unwrap()).grid_idxs();
    assert_eq!(col.map(|i| i.to_usize()), [2, 11, 20, 29, 38, 47, 56, 65, 74]);
    let bx = SectionInfo::new(SectionKind::Box, SectionIdx::new(5).unwrap()).grid_idxs();
    assert_eq!(bx.map(|i| i.to_usize()), [33, 34, 35, 42, 43, 44, 51, 52, 53]);
}

#[test]
fn unique_candidate_in_synthetic_section() {
    // eight cells share every candidate but 4; the target alone holds 4
    let shared = 0b111_110_111_0;
    let mut cells = [shared; 9];
    cells[3] = shared | 0b000_001_000_0;
    let section = section_of(cells);
    let inner = SectionIdx::new(3).unwrap();
    assert_eq!(section.unique_candidate(inner), Ok(Some(Num::new(4).unwrap())));
    // another cell finds nothing of its own
    assert_eq!(section.unique_candidate(SectionIdx::new(0).unwrap()), Ok(None));
}

#[test]
fn two_exclusive_bits_are_inconsistent() {
    let shared = 0b111_100_111_0;
    let mut cells = [shared; 9];
    cells[5] = shared | 0b000_011_000_0;
    let section = section_of(cells);
    assert_eq!(
        section.unique_candidate(SectionIdx::new(5).unwrap()),
        Err(CandidateError::MultipleUniqueCandidates)
    );
}

#[test]
fn grid_unique_candidate_combines_sections() {
    let mut g = Grid::default();
    let bit7 = CellMask::from_known(Num::new(7).unwrap());
    // remove 7 from the rest of row 0: cell 4 is the only place for 7 in its row
    for c in 0..9 {
        if c != 4 {
            g.apply_filter(Filter::new(bit7, idx(c)));
        }
    }
    assert_eq!(g.unique_candidate(idx(4)), Ok(Some(Num::new(7).unwrap())));
    assert_eq!(g.unique_candidate(idx(5)), Ok(None));
    // make 2 unique to cell 4 within its column as well: the sections disagree
    let bit2 = CellMask::from_known(Num::new(2).unwrap());
    for r in 1..9 {
        g.apply_filter(Filter::new(bit2, idx(9 * r + 4)));
    }
    assert_eq!(g.unique_candidate(idx(4)), Err(CandidateError::MultipleUniqueCandidates));
}

#[test]
fn known_filters_cover_the_neighbours() {
    let n = Num::new(6).unwrap();
    let filters = Grid::known_filters(n, idx(40));
    let positions: Vec<usize> = filters.iter().map(|f| f.idx.to_usize()).collect();
    assert_eq!(
        positions,
        vec![
            36, 37, 38, 39, 41, 42, 43, 44, // row 4
            4, 13, 22, 31, 49, 58, 67, 76, // column 4
            30, 31, 32, 39, 41, 48, 49, 50, // box 4
        ]
    );
    assert!(filters.iter().all(|f| f.mask.to_u16() == 0b000_100_000_0));
}

#[test]
fn filter_application_is_idempotent() {
    let mut g = Grid::default();
    let f = Filter::new(CellMask::new(0b000_101_000_0).unwrap(), idx(17));
    g.apply_filter(f);
    let once = words(&g);
    g.apply_filter(f);
    assert_eq!(words(&g), once);
    assert_eq!(once[17], 0b111_010_111_0);
}

#[test]
fn filter_application_is_monotone() {
    let mut g = Grid::default();
    g.set_cell(idx(3), Cell::new_known(Num::new(2).unwrap()));
    let before = words(&g);
    let filters = Grid::known_filters(Num::new(2).unwrap(), idx(3));
    g.apply_filters(&filters);
    let after = words(&g);
    for p in 0..81 {
        assert_eq!(after[p] & !before[p], 0, "cell {p} gained a candidate");
    }
    assert_eq!(after[4], 0b111_111_101_0);
    assert_eq!(after[3], 0b000_000_010_1);
    assert_eq!(after[80], 0b111_111_111_0);
}

#[test]
fn sections_of_a_cell() {
    let mut g = Grid::default();
    g.set_cell(idx(10), Cell::new_known(Num::new(1).unwrap()));
    let sections = g.get_sections(idx(10));
    assert_eq!(sections[0].info.kind, SectionKind::Row);
    assert_eq!(sections[1].info.idx.to_usize(), 1);
    assert_eq!(sections[2].cells[4].to_u16(), 0b000_000_001_1);
    assert_eq!(sections[0].cells[1].to_u16(), 0b000_000_001_1);
}

#[test]
fn get_cell_mut_writes_through() {
    let mut g = Grid::default();
    g.get_cell_mut(idx(8)).remove_candidates(CellMask::new(0b111_111_110_0).unwrap());
    assert_eq!(g.get_cell(idx(8)).single_candidate(), Some(Num::new(1).unwrap()));
}
