use sudoxu::idx::{AreaIdx, GridIdx, Idx, SectionIdx, TryIntoIdx};

#[test]
fn idx_display() {
    let row_idx = SectionIdx::new(8_usize).unwrap();
    assert_eq!(row_idx.to_string(), "8");

    let grid_idx = GridIdx::new(8_usize).unwrap();
    assert_eq!(grid_idx.to_string(), "8");

    let grid_idx = GridIdx::new(60_usize).unwrap();
    assert_eq!(grid_idx.to_string(), "60");
}

#[test]
fn fmt_display() {
    let row_idx = SectionIdx::new(8_usize).unwrap();
    assert_eq!(row_idx.to_string(), "8");

    let grid_idx = GridIdx::new(8_usize).unwrap();
    assert_eq!(grid_idx.to_string(), "8");

    let grid_idx = GridIdx::new(60_usize).unwrap();
    assert_eq!(grid_idx.to_string(), "60");
}

#[test]
fn grid_idx_associated() {
    let s = |n: usize| Idx::<9>::new(n).unwrap();
    let i = GridIdx::new(39_usize).unwrap();
    let idxs = i.associated_idxs();
    let expected = [(s(4), s(3)), (s(3), s(4)), (s(4), s(3))];
    assert_eq!(idxs, expected);

    let i = GridIdx::new(7_usize).unwrap();
    let idxs = i.associated_idxs();
    let expected = [(s(0), s(7)), (s(7), s(0)), (s(2), s(1))];
    assert_eq!(idxs, expected);
}

#[test]
fn idx_bounds() {
    assert!(GridIdx::new(81).is_none());
    assert!(GridIdx::new(80).is_some());
    assert!(AreaIdx::new(6).is_none());
    assert_eq!(SectionIdx::new(0).unwrap().to_usize(), 0);
    assert_eq!(Idx::<1000>::new(407).unwrap().to_string(), "407");
}

#[test]
fn section_and_inner_idxs() {
    let i = GridIdx::new(45_usize).unwrap();
    let s: Vec<usize> = i.section_idxs().iter().map(|x| x.to_usize()).collect();
    assert_eq!(s, vec![5, 0, 3]);
    let n: Vec<usize> = i.inner_idxs().iter().map(|x| x.to_usize()).collect();
    assert_eq!(n, vec![0, 5, 6]);
}

#[test]
fn area_boxes() {
    let b: Vec<usize> = AreaIdx::new(1).unwrap().to_box_section_idxs().iter().map(|x| x.to_usize()).collect();
    assert_eq!(b, vec![1, 4, 7]);
    let b: Vec<usize> = AreaIdx::new(5).unwrap().to_box_section_idxs().iter().map(|x| x.to_usize()).collect();
    assert_eq!(b, vec![6, 7, 8]);
}

#[test]
fn try_to_idx_checks_the_bound() {
    assert_eq!(8usize.try_to_idx::<9>().map(|i| i.to_usize()), Some(8));
    assert!(9usize.try_to_idx::<9>().is_none());
}
