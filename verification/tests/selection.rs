use mdarray::expr::BroadcastError;
use mdarray::layout::Layout;
use mdarray::select::DimIndex;
use mdarray::slice::Slice;

fn cube() -> Slice<i32> {
    Slice::from_vec((0..24).collect(), &[2, 3, 4]).unwrap()
}

#[test]
fn select_index_then_ranges() {
    let m = cube();
    let v = m.select(&[DimIndex::At(1), DimIndex::Range(1, 3), DimIndex::Full]);
    assert_eq!(v.dims(), &[2, 4]);
    assert_eq!(v.to_vec(), vec![16, 17, 18, 19, 20, 21, 22, 23]);
    assert_eq!(v.layout(), Layout::Dense);
    assert_eq!(v.mapping().base(), 16);
}

#[test]
fn select_inner_cut_is_strided() {
    let m = cube();
    let v = m.select(&[DimIndex::Full, DimIndex::At(2), DimIndex::Range(1, 3)]);
    assert_eq!(v.dims(), &[2, 2]);
    assert_eq!(v.to_vec(), vec![9, 10, 21, 22]);
    assert_eq!(v.layout(), Layout::Strided);
    assert_eq!(v.strides(), vec![12, 1]);
    let w = m.select(&[DimIndex::Range(0, 2), DimIndex::Range(0, 3), DimIndex::Full]);
    assert_eq!(w.layout(), Layout::Strided);
    assert_eq!(w.to_vec(), m.to_vec());
}

#[test]
fn select_everything_or_one_element() {
    let m = cube();
    let all = m.select(&[DimIndex::Full, DimIndex::Full, DimIndex::Full]);
    assert_eq!(all.to_vec(), m.to_vec());
    assert_eq!(all.layout(), Layout::Dense);
    let one = m.select(&[DimIndex::At(1), DimIndex::At(2), DimIndex::At(3)]);
    assert_eq!(one.rank(), 0);
    assert_eq!(one.to_vec(), vec![23]);
    assert_eq!(one.layout(), Layout::Dense);
    let none = m.select(&[DimIndex::Range(2, 2), DimIndex::Full, DimIndex::Full]);
    assert_eq!(none.dims(), &[0, 3, 4]);
    assert_eq!(none.len(), 0);
}

#[test]
fn invalid_selection_is_refused_whole() {
    let m = cube();
    let e = m.expr();
    assert!(e.try_select(&[DimIndex::At(1), DimIndex::Full, DimIndex::At(4)]).is_none());
    assert!(e.try_select(&[DimIndex::At(2), DimIndex::Full, DimIndex::Full]).is_none());
    assert!(e.try_select(&[DimIndex::Full, DimIndex::Range(2, 1), DimIndex::Full]).is_none());
    assert!(e.try_select(&[DimIndex::Full, DimIndex::Range(0, 4), DimIndex::Full]).is_none());
    assert!(e.try_select(&[DimIndex::Full, DimIndex::Full]).is_none());
    assert!(e.try_select(&[DimIndex::Full, DimIndex::Range(3, 3), DimIndex::At(0)]).is_some());
    assert!(m.mapping().admits(&[DimIndex::At(0), DimIndex::At(0), DimIndex::At(0)]));
    assert_eq!(m.to_vec(), (0..24).collect::<Vec<i32>>());
}

#[test]
fn select_mut_assigns_the_selected_part() {
    let mut m = Slice::from_vec(vec![1, 2, 3, 4, 5, 6], &[2, 3]).unwrap();
    m.select_mut(&[DimIndex::Full, DimIndex::Range(1, 3)]).fill(0);
    assert_eq!(m.to_vec(), vec![1, 0, 0, 4, 0, 0]);
    m.expr_mut().select(&[DimIndex::At(1), DimIndex::At(0)]).fill(9);
    assert_eq!(m.to_vec(), vec![1, 0, 0, 9, 0, 0]);
}

#[test]
fn broadcast_error_is_described() {
    assert_eq!(BroadcastError::Incompatible.describe(), "shapes cannot be broadcast together");
    assert_eq!(BroadcastError::TooLarge.describe(), "broadcast shape is too large");
}
