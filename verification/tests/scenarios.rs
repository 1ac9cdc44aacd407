use mdarray::layout::Layout;
use mdarray::slice::Slice;

fn matrix() -> Slice<i32> {
    Slice::from_vec(vec![1, 2, 3, 4, 5, 6], &[2, 3]).unwrap()
}

#[test]
fn row_of_row_major_matrix() {
    let m = matrix();
    assert_eq!(m.row(0).to_vec(), vec![1, 2, 3]);
    assert_eq!(m.row(1).to_vec(), vec![4, 5, 6]);
    assert_eq!(m.row(0).dims(), &[3]);
    assert_eq!(m.row(1).layout(), Layout::Dense);
}

#[test]
fn col_of_row_major_matrix() {
    let m = matrix();
    assert_eq!(m.col(1).to_vec(), vec![2, 5]);
    assert_eq!(m.col(0).to_vec(), vec![1, 4]);
    assert_eq!(m.col(2).to_vec(), vec![3, 6]);
    assert_eq!(m.col(1).layout(), Layout::Strided);
    assert_eq!(m.col(1).strides(), vec![3]);
}

#[test]
fn transpose_swaps_the_extents() {
    let m = matrix();
    let t = m.transpose();
    assert_eq!(t.dim(0), 3);
    assert_eq!(t.dim(1), 2);
    assert_eq!(t.to_vec(), vec![1, 4, 2, 5, 3, 6]);
    assert_eq!(t.strides(), vec![1, 3]);
    assert_eq!(t.layout(), Layout::Strided);
}

#[test]
fn axis_at_first_axis_is_row() {
    let m = matrix();
    let a = m.axis_at(0, 1);
    let r = m.row(1);
    assert_eq!(a.to_vec(), r.to_vec());
    assert_eq!(a.dims(), r.dims());
    assert_eq!(a.strides(), r.strides());
    assert_eq!(a.layout(), r.layout());
    assert_eq!(a.mapping().base(), r.mapping().base());
    assert_eq!(a.mapping().base(), 3);
}

#[test]
fn at_indexes_the_first_axis() {
    let m = matrix();
    assert_eq!(m.at(1).to_vec(), vec![4, 5, 6]);
    assert_eq!(m.expr().at(0).to_vec(), vec![1, 2, 3]);
}

#[test]
fn axis_at_other_axis_is_strided() {
    let m = matrix();
    let a = m.axis_at(1, 2);
    assert_eq!(a.to_vec(), vec![3, 6]);
    assert_eq!(a.layout(), Layout::Strided);
    assert_eq!(a.mapping().base(), 2);
}

#[test]
fn contains_agrees_under_both_layouts() {
    let m = Slice::from_vec(vec![1, 2, 3, 4], &[2, 2]).unwrap();
    assert!(m.contains(&3));
    assert!(!m.contains(&9));
    let t = m.transpose();
    assert_eq!(t.layout(), Layout::Strided);
    assert!(t.contains(&3));
    assert!(!t.contains(&9));
    for x in 0..10 {
        assert_eq!(m.contains(&x), t.contains(&x));
    }
}

#[test]
fn contains_on_strided_vector_and_empty() {
    let m = matrix();
    let c = m.col(1);
    assert!(c.contains(&5));
    assert!(!c.contains(&4));
    let e: Slice<i32> = Slice::from_vec(vec![], &[0, 3]).unwrap();
    assert!(!e.contains(&0));
    assert!(!e.transpose().contains(&0));
}

#[test]
fn contains_in_three_axes_strided() {
    let data: Vec<i32> = (0..24).collect();
    let m = Slice::from_vec(data, &[2, 3, 4]).unwrap();
    let p = m.permute(&[2, 0, 1]);
    assert!(p.contains(&23));
    assert!(p.contains(&0));
    assert!(!p.contains(&24));
    assert!(mdarray::slice::contains(&m, &7));
}

#[test]
fn introspection_of_a_dense_slice() {
    let m = matrix();
    assert_eq!(m.rank(), 2);
    assert_eq!(m.len(), 6);
    assert!(!m.is_empty());
    assert_eq!(m.dim(0), 2);
    assert_eq!(m.dim(1), 3);
    assert_eq!(m.dims(), &[2, 3]);
    assert_eq!(m.shape().dims(), &[2, 3]);
    assert_eq!(m.stride(0), 3);
    assert_eq!(m.stride(1), 1);
    assert_eq!(m.strides(), vec![3, 1]);
    assert!(m.is_contiguous());
    assert_eq!(m.mapping().layout(), Layout::Dense);
    assert_eq!(m.mapping().limit(), 6);
}

#[test]
fn from_vec_rejects_a_wrong_length() {
    assert!(Slice::from_vec(vec![1, 2, 3], &[2, 2]).is_none());
    assert!(Slice::from_vec(vec![1, 2, 3, 4], &[2, 2]).is_some());
    assert!(Slice::<i32>::from_vec(vec![], &[usize::MAX, 2]).is_none());
}

#[test]
fn rank_zero_slice_holds_one_element() {
    let s = Slice::from_vec(vec![7], &[]).unwrap();
    assert_eq!(s.rank(), 0);
    assert_eq!(s.len(), 1);
    assert_eq!(s.get(&[]), Some(&7));
    assert_eq!(s.to_vec(), vec![7]);
    assert_eq!(s.transpose().layout(), Layout::Dense);
}

#[test]
fn empty_slice_has_no_elements() {
    let s: Slice<u8> = Slice::from_vec(vec![], &[3, 0]).unwrap();
    assert!(s.is_empty());
    assert_eq!(s.len(), 0);
    assert_eq!(s.to_vec(), Vec::<u8>::new());
    assert_eq!(s.get(&[0, 0]), None);
    assert_eq!(s.at(2).len(), 0);
    assert_eq!(s.strides(), vec![0, 1]);
}

#[test]
fn pointer_access_starts_at_the_base() {
    let mut m = matrix();
    assert_eq!(m.as_ptr(), &[1, 2, 3, 4, 5, 6]);
    assert_eq!(m.row(1).as_ptr(), &[4, 5, 6]);
    assert_eq!(m.col(2).as_ptr(), &[3, 4, 5, 6]);
    m.as_mut_ptr()[4] = 50;
    assert_eq!(m.to_vec(), vec![1, 2, 3, 4, 50, 6]);
    assert_eq!(m.into_vec(), vec![1, 2, 3, 4, 50, 6]);
}

#[test]
fn copies_into_owned_containers() {
    let m = matrix();
    let t = m.transpose();
    assert_eq!(t.to_vec(), vec![1, 4, 2, 5, 3, 6]);
    let a: Option<[i32; 6]> = m.to_array();
    assert_eq!(a, Some([1, 2, 3, 4, 5, 6]));
    let b: Option<[i32; 5]> = m.to_array();
    assert_eq!(b, None);
    let c = m.to_tensor();
    assert_eq!(c.dims(), &[2, 3]);
    assert_eq!(c.to_vec(), vec![1, 2, 3, 4, 5, 6]);
    assert!(c.is_contiguous());
}
