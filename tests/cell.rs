use sudoxu::cell::{CandidateError, Cell, CellMask};
use sudoxu::num::{Num, NumErr};

#[test]
fn to_char() {
    let cell = Cell::new(0b100_000_000_1).unwrap();
    assert_eq!(char::from(cell), '9');
}

#[test]
fn byte_conversion() {
    let c = Cell::new(0b100_000_000_1).unwrap();
    let b = u8::from(c);
    assert_eq!(b, b'9');
}

#[test]
fn unknown_cell_shows_space() {
    let c = Cell::new(0b000_000_110_0).unwrap();
    assert_eq!(char::from(c), ' ');
    assert_eq!(u8::from(c), b' ');
}

#[test]
fn single_candidate_basic() {
    let cell = Cell::new(0b000000_001_001_001_0).unwrap();
    assert!(cell.single_candidate().is_none());

    let cell = Cell::new(0b000000_000_010_000_0).unwrap();
    assert_eq!(cell.single_candidate(), Some(Num::new(5).unwrap()));
}

#[test]
fn single_candidate_discard_known() {
    let cell = Cell::new(0b000000_000_010_000_1).unwrap();
    assert!(cell.single_candidate().is_none());

    let cell = Cell::new_unchecked(0b000000_000_111_000_1);
    assert!(cell.single_candidate().is_none());
}

#[test]
fn single_candidate_ignore_banned_bits() {
    let cell = Cell::new_unchecked(0b111000_001_001_001_0);
    assert!(cell.single_candidate().is_none());

    let cell = Cell::new_unchecked(0b111000_000_010_000_0);
    assert_eq!(cell.single_candidate(), Some(Num::new(5).unwrap()));
}

#[test]
fn single_candidate_each_digit() {
    for d in 1..=9u8 {
        let cell = Cell::new_unchecked(1u16 << d);
        assert_eq!(cell.single_candidate(), Some(Num::new(d).unwrap()));
    }
    assert!(Cell::new_unchecked(0).single_candidate().is_none());
}

#[test]
fn check_reports_each_error() {
    assert_eq!(Cell::new_unchecked(0b000011_000_001_000_1).check(), Err(CandidateError::BannedBits));
    assert_eq!(Cell::new_unchecked(0b000100_000_000_000_0).check(), Err(CandidateError::BannedBits));
    assert_eq!(Cell::new_unchecked(0b000_000_000_1).check(), Err(CandidateError::KnownNoNum));
    assert_eq!(Cell::new_unchecked(0b111_000_000_1).check(), Err(CandidateError::KnownMultipleNum));
    assert_eq!(Cell::new_unchecked(0).check(), Err(CandidateError::NoCandidates));
    assert_eq!(Cell::new_unchecked(0b100_000_000_1).check(), Ok(()));
    assert_eq!(Cell::new_unchecked(0b000_000_111_0).check(), Ok(()));
    assert_eq!(Cell::default().check(), Ok(()));
}

#[test]
fn check_accepts_exactly_the_valid_words() {
    for w in 0u16..1024 {
        let known = w & 1 == 1;
        let count = (w & 0b111_111_111_0).count_ones();
        let valid = if known { count == 1 } else { count >= 1 };
        assert_eq!(Cell::new_unchecked(w).check().is_ok(), valid, "word {w:#b}");
        assert_eq!(Cell::new(w).is_ok(), valid);
    }
    assert!(Cell::new(1024 | 0b10).is_err());
}

#[test]
fn cell_new_examples() {
    assert!(Cell::new(0b100_000_000_1).is_ok());
    assert!(Cell::new(0b000_110_000_1).is_err());
    assert!(Cell::new(0b000_000_000_1).is_err());
    assert!(Cell::new(0b000000_000_000_111_0).is_ok());
    assert!(Cell::new(0b001100_000_000_111_0).is_err());
}

#[test]
fn new_known_word() {
    let c = Cell::new_known(Num::new(3).unwrap());
    assert_eq!(c.to_u16(), 0b000_000_100_1);
    assert!(c.is_known());
    assert_eq!(c.check(), Ok(()));
}

#[test]
fn default_cell_has_all_candidates() {
    assert_eq!(Cell::default().to_u16(), 0b111_111_111_0);
    assert!(!Cell::default().is_known());
}

#[test]
fn candidate_algebra() {
    let a = Cell::new_unchecked(0b000_011_110_0);
    let b = Cell::new_unchecked(0b000_110_011_0);
    assert_eq!(a.intersection(b).to_u16(), 0b000_010_010_0);
    assert_eq!(a.union(b).to_u16(), 0b000_111_111_0);
    assert_eq!(a.symmetric_difference(b).to_u16(), 0b000_101_101_0);
    assert_eq!(Cell::new_unchecked(0b000_000_111_1).complement_candidates().to_u16(), 0b111_111_000_1);
}

#[test]
fn remove_candidates_keeps_flags() {
    let mut c = Cell::new_unchecked(0b000_000_011_0);
    c.remove_candidates(CellMask::new(0b000_000_001_0).unwrap());
    assert_eq!(c.to_u16(), 0b000_000_010_0);
    c.set_known_bit();
    assert_eq!(c.to_u16(), 0b000_000_010_1);
    c.remove_candidates(CellMask::new(0b000_000_010_0).unwrap());
    assert_eq!(c.to_u16(), 0b000_000_000_1);
    assert_eq!(c.check(), Err(CandidateError::KnownNoNum));
    c.set_candidates(CellMask::from_known(Num::new(7).unwrap()));
    assert_eq!(c.to_u16(), 0b001_000_000_1);
}

#[test]
fn cell_masks() {
    assert!(CellMask::new(0b1).is_none());
    assert!(CellMask::new(0b1_000_000_000_0).is_none());
    assert_eq!(CellMask::new(0b111_111_111_0).unwrap().to_u16(), 0b111_111_111_0);
    assert_eq!(CellMask::from_known(Num::new(3).unwrap()).to_u16(), 0b000_000_100_0);
    let nums = [Num::new(1).unwrap(), Num::new(9).unwrap(), Num::new(1).unwrap()];
    assert_eq!(CellMask::from_candidates(&nums).to_u16(), 0b100_000_001_0);
    assert_eq!(CellMask::from_candidates(&[]).to_u16(), 0);
}

#[test]
fn num_bounds() {
    assert_eq!(Num::new(0), Err(NumErr::Zero));
    assert_eq!(Num::new(10), Err(NumErr::TooBig));
    assert_eq!(Num::new(255), Err(NumErr::TooBig));
    assert_eq!(Num::new(1).unwrap().value(), 1);
    assert_eq!(Num::new(9).unwrap().value(), 9);
}

#[test]
fn cell_text() {
    assert_eq!(Cell::new(0b100_000_000_1).unwrap().to_string(), "9");
    assert_eq!(Cell::new(0b000_000_101_0).unwrap().to_string(), "{13}");
    assert_eq!(Cell::default().to_string(), "{123456789}");
    assert_eq!(Cell::new_unchecked(0).to_string(), "{}");
}
