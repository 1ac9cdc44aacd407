use mdarray::dim::{Const, Dim, Dyn};
use mdarray::layout::Layout;
use mdarray::mapping::{can_broadcast, common_extents, is_identity_order, is_order, Mapping};
use mdarray::select::DimIndex;
use mdarray::shape::{resolve_extents, Shape};
use mdarray::slice::Slice;
use mdarray::view::ArrayView;

fn cube() -> Slice<i32> {
    Slice::from_vec((0..24).collect(), &[2, 3, 4]).unwrap()
}

#[test]
fn flatten_of_dense_keeps_order_and_length() {
    let m = cube();
    let f = m.flatten();
    assert_eq!(f.dims(), &[24]);
    assert_eq!(f.len(), 2 * 3 * 4);
    assert_eq!(f.to_vec(), (0..24).collect::<Vec<i32>>());
    assert_eq!(f.to_vec(), m.to_vec());
    assert_eq!(f.layout(), Layout::Dense);
}

#[test]
fn flatten_of_uniformly_strided_column() {
    let m = Slice::from_vec(vec![1, 2, 3, 4, 5, 6], &[2, 3]).unwrap();
    let c = m.col(1);
    assert!(c.mapping().is_uniform());
    let grid = c.reshape(&[2, 1]);
    assert_eq!(grid.dims(), &[2, 1]);
    assert_eq!(grid.strides(), vec![3, 3]);
    assert_eq!(grid.to_vec(), vec![2, 5]);
    assert_eq!(grid.flatten().to_vec(), vec![2, 5]);
}

#[test]
fn permute_then_inverse_restores_elements() {
    let m = cube();
    let p = m.permute(&[2, 0, 1]);
    assert_eq!(p.dims(), &[4, 2, 3]);
    assert_eq!(p.strides(), vec![1, 12, 4]);
    let back = p.permute(&[1, 2, 0]);
    assert_eq!(back.dims(), &[2, 3, 4]);
    assert_eq!(back.strides(), vec![12, 4, 1]);
    assert_eq!(back.to_vec(), m.to_vec());
    assert_eq!(back.layout(), Layout::Strided);
    assert!(back.is_contiguous());
}

#[test]
fn permute_by_identity_keeps_layout() {
    let m = cube();
    let p = m.permute(&[0, 1, 2]);
    assert_eq!(p.layout(), Layout::Dense);
    assert_eq!(p.to_vec(), m.to_vec());
    assert_eq!(m.permute(&[0, 2, 1]).layout(), Layout::Strided);
    assert_eq!(m.permute(&[0, 2, 1]).get(&[1, 3, 2]), Some(&23));
    assert_eq!(m.permute(&[0, 2, 1]).get(&[1, 3, 0]), Some(&15));
}

#[test]
fn order_checks() {
    assert!(is_order(&[2, 0, 1]));
    assert!(is_order(&[]));
    assert!(!is_order(&[0, 0, 1]));
    assert!(!is_order(&[0, 3, 1]));
    assert!(is_identity_order(&[0, 1, 2]));
    assert!(!is_identity_order(&[0, 2, 1]));
}

#[test]
fn transpose_twice_restores_order_and_contiguity() {
    let m = cube();
    let t = m.transpose();
    assert_eq!(t.dims(), &[4, 3, 2]);
    assert!(!t.is_contiguous());
    let tt = t.transpose();
    assert_eq!(tt.dims(), &[2, 3, 4]);
    assert_eq!(tt.strides(), vec![12, 4, 1]);
    assert_eq!(tt.to_vec(), m.to_vec());
    assert_eq!(tt.is_contiguous(), m.is_contiguous());
    let s = t.transpose().transpose();
    assert_eq!(s.layout(), t.layout());
    assert_eq!(s.strides(), t.strides());
    assert_eq!(m.reorder().to_vec(), t.to_vec());
}

#[test]
fn transpose_of_a_vector_keeps_layout() {
    let v = Slice::from_vec(vec![1, 2, 3], &[3]).unwrap();
    assert_eq!(v.transpose().layout(), Layout::Dense);
    assert_eq!(v.transpose().to_vec(), vec![1, 2, 3]);
}

#[test]
fn split_axis_gives_both_parts_in_order() {
    let m = Slice::from_vec(vec![1, 2, 3, 4, 5, 6], &[2, 3]).unwrap();
    let (a, b) = m.split_axis_at(1, 1);
    assert_eq!(a.dims(), &[2, 1]);
    assert_eq!(b.dims(), &[2, 2]);
    assert_eq!(a.to_vec(), vec![1, 4]);
    assert_eq!(b.to_vec(), vec![2, 3, 5, 6]);
    assert_eq!(a.layout(), Layout::Strided);
    for r in 0..2 {
        let mut whole = a.at(r).to_vec();
        whole.extend(b.at(r).to_vec());
        assert_eq!(whole, m.row(r).to_vec());
    }
}

#[test]
fn split_at_first_axis_keeps_layout() {
    let m = cube();
    let (a, b) = m.split_at(1);
    assert_eq!(a.dims(), &[1, 3, 4]);
    assert_eq!(b.dims(), &[1, 3, 4]);
    assert_eq!(a.layout(), Layout::Dense);
    assert_eq!(b.layout(), Layout::Dense);
    assert_eq!(b.mapping().base(), 12);
    let mut whole = a.to_vec();
    whole.extend(b.to_vec());
    assert_eq!(whole, m.to_vec());
}

#[test]
fn split_at_the_ends_gives_an_empty_part() {
    let m = cube();
    let (a, b) = m.split_at(0);
    assert_eq!(a.len(), 0);
    assert_eq!(b.to_vec(), m.to_vec());
    let (c, d) = m.split_axis_at(2, 4);
    assert_eq!(c.to_vec(), m.to_vec());
    assert_eq!(d.len(), 0);
    assert_eq!(d.dims(), &[2, 3, 0]);
    assert_eq!(d.mapping().base(), 0);
}

#[test]
fn reshape_preserves_length_and_order() {
    let m = cube();
    let r = m.reshape(&[4, 6]);
    assert_eq!(r.dims(), &[4, 6]);
    assert_eq!(r.to_vec(), m.to_vec());
    assert_eq!(r.get(&[1, 2]), Some(&8));
    assert_eq!(r.layout(), Layout::Dense);
}

#[test]
fn reshape_infers_one_extent() {
    let m = Slice::from_vec(vec![1, 2, 3, 4, 5, 6], &[2, 3]).unwrap();
    let r = m.reshape(&[usize::MAX, 2]);
    assert_eq!(r.dims(), &[3, 2]);
    assert_eq!(r.to_vec(), vec![1, 2, 3, 4, 5, 6]);
    assert_eq!(resolve_extents(&[usize::MAX, 2], 6), Some(vec![3, 2]));
    assert_eq!(resolve_extents(&[2, usize::MAX], 6), Some(vec![2, 3]));
    assert_eq!(resolve_extents(&[2, 3], 7), Some(vec![2, 3]));
    assert_eq!(resolve_extents(&[usize::MAX], 0), Some(vec![0]));
}

#[test]
fn reshape_inference_fails() {
    assert_eq!(resolve_extents(&[usize::MAX, usize::MAX], 6), None);
    assert_eq!(resolve_extents(&[usize::MAX, 4], 6), None);
    assert_eq!(resolve_extents(&[usize::MAX, 0], 0), None);
    assert_eq!(resolve_extents(&[usize::MAX, usize::MAX - 1, 3], 0), None);
}

#[test]
fn try_reshape_succeeds_iff_admitted() {
    let m = cube();
    assert!(m.try_reshape(&[6, 4]).is_some());
    assert!(m.try_reshape(&[5, 5]).is_none());
    assert!(m.try_reshape(&[usize::MAX, 5]).is_none());
    assert!(m.try_reshape(&[usize::MAX, usize::MAX]).is_none());
    let t = m.transpose();
    assert!(t.try_reshape(&[24]).is_none());
    assert!(t.try_reshape(&[4, 3, 2]).is_some());
    assert_eq!(t.try_reshape(&[4, 3, 2]).unwrap().to_vec(), t.to_vec());
    assert!(!t.mapping().can_reshape(&[6, 4]));
    assert!(m.mapping().can_reshape(&[24]));
    assert_eq!(m.to_vec(), (0..24).collect::<Vec<i32>>());
}

#[test]
fn reshape_of_empty_slice() {
    let e: Slice<i32> = Slice::from_vec(vec![], &[0, 3]).unwrap();
    let r = e.reshape(&[5, 0, 2]);
    assert_eq!(r.dims(), &[5, 0, 2]);
    assert_eq!(r.len(), 0);
    assert_eq!(r.mapping().base(), 0);
}

#[test]
fn remap_needs_contiguous_memory_for_dense() {
    let m = cube();
    let s = m.remap(Layout::Strided);
    assert_eq!(s.layout(), Layout::Strided);
    assert_eq!(s.strides(), vec![12, 4, 1]);
    assert!(s.is_contiguous());
    let d = s.remap(Layout::Dense);
    assert_eq!(d.layout(), Layout::Dense);
    assert_eq!(d.to_vec(), m.to_vec());
    assert!(!m.transpose().is_contiguous());
}

#[test]
fn diagonals_of_a_matrix() {
    let m = Slice::from_vec(vec![1, 2, 3, 4, 5, 6], &[2, 3]).unwrap();
    assert_eq!(m.diag(0).to_vec(), vec![1, 5]);
    assert_eq!(m.diag(1).to_vec(), vec![2, 6]);
    assert_eq!(m.diag(2).to_vec(), vec![3]);
    assert_eq!(m.diag(3).to_vec(), Vec::<i32>::new());
    assert_eq!(m.diag(-1).to_vec(), vec![4]);
    assert_eq!(m.diag(-2).to_vec(), Vec::<i32>::new());
    assert_eq!(m.diag(0).strides(), vec![4]);
    assert_eq!(m.diag(2).strides(), vec![1]);
    assert_eq!(m.diag(1).layout(), Layout::Strided);
    assert_eq!(m.transpose().diag(-1).to_vec(), vec![2, 6]);
}

#[test]
fn shape_rejects_what_does_not_fit() {
    assert!(Shape::new(&[2, 3]).is_some());
    assert!(Shape::new(&[]).is_some());
    assert!(Shape::new(&[0, 5]).is_some());
    assert!(Shape::new(&[isize::MAX as usize]).is_some());
    assert!(Shape::new(&[isize::MAX as usize + 1]).is_none());
    assert!(Shape::new(&[isize::MAX as usize, 2]).is_none());
    assert!(Shape::new(&[0, isize::MAX as usize, 2]).is_none());
    let s = Shape::new(&[2, 0, 4]).unwrap();
    assert_eq!(s.rank(), 3);
    assert_eq!(s.len(), 0);
    assert!(s.is_empty());
    assert_eq!(s.dim(2), 4);
    assert_eq!(s.remove_axis(1).dims(), &[2, 4]);
    assert_eq!(s.resize_axis(0, 1).dims(), &[1, 0, 4]);
    assert_eq!(s.permute(&[2, 0, 1]).dims(), &[4, 2, 0]);
}

#[test]
fn strided_mapping_is_checked() {
    let shape = || Shape::new(&[2, 3]).unwrap();
    let m = Mapping::strided(shape(), vec![1, 2], 0, 6).unwrap();
    assert_eq!(m.offset(&[1, 2]), 5);
    assert_eq!(m.linear_offset(1), 2);
    assert_eq!(m.layout(), Layout::Strided);
    assert!(Mapping::strided(shape(), vec![1, 2], 0, 5).is_none());
    assert!(Mapping::strided(shape(), vec![1, 2], 1, 6).is_none());
    assert!(Mapping::strided(shape(), vec![1], 0, 6).is_none());
    assert!(Mapping::strided(shape(), vec![-1, 2], 0, 6).is_none());
    let r = Mapping::strided(shape(), vec![-1, 2], 1, 6).unwrap();
    assert_eq!(r.offset(&[1, 0]), 0);
    assert_eq!(r.offset(&[0, 2]), 5);
    assert!(!r.is_uniform());
    assert!(Mapping::strided(Shape::new(&[0, 3]).unwrap(), vec![5, 1], 7, 0).is_some());
    assert!(Mapping::strided(shape(), vec![0, 0], 0, usize::MAX).is_none());
}

#[test]
fn view_through_a_strided_mapping() {
    let data = [10, 11, 12, 13, 14, 15];
    let map = Mapping::strided(Shape::new(&[3]).unwrap(), vec![-2], 4, 6).unwrap();
    let v = ArrayView::from_parts(&data, map).unwrap();
    assert_eq!(v.to_vec(), vec![14, 12, 10]);
    assert_eq!(v.mapping().step(), -2);
    let short = Mapping::strided(Shape::new(&[3]).unwrap(), vec![1], 0, 5).unwrap();
    assert!(ArrayView::from_parts(&data, short).is_none());
    assert!(ArrayView::new(&data, &[2, 3]).is_some());
    assert!(ArrayView::new(&data, &[4]).is_none());
}

#[test]
fn broadcast_shapes() {
    assert!(can_broadcast(&[], &[2, 3]));
    assert!(can_broadcast(&[1, 3], &[2, 3]));
    assert!(can_broadcast(&[2, 3], &[2, 3]));
    assert!(!can_broadcast(&[2, 3], &[1, 3]));
    assert!(!can_broadcast(&[3], &[2, 3]));
    assert_eq!(common_extents(&[2, 1], &[1, 3]), Some(vec![2, 3]));
    assert_eq!(common_extents(&[], &[4]), Some(vec![4]));
    assert_eq!(common_extents(&[4], &[]), Some(vec![4]));
    assert_eq!(common_extents(&[2, 3], &[3, 2]), None);
    assert_eq!(common_extents(&[2], &[2, 1]), None);
    assert_eq!(common_extents(&[0, 1], &[1, 5]), Some(vec![0, 5]));
}

#[test]
fn shapes_from_fixed_and_dynamic_dimensions() {
    let s = Shape::new(&[]).unwrap();
    let s = s.append(&Const::<2>).unwrap();
    let s = s.append(&Dyn(3)).unwrap();
    assert_eq!(s.dims(), &[2, 3]);
    assert_eq!(Const::<7>.size(), 7);
    assert_eq!(Dyn(5).size(), 5);
    assert_eq!(std::mem::size_of::<Const<7>>(), 0);
    assert!(s.append(&Dyn(usize::MAX)).is_none());
    assert!(s.append(&Const::<0>).is_some());
}

#[test]
fn reshape_along_stride_compatible_boundaries() {
    let m = Slice::from_vec((0..32).collect::<Vec<i32>>(), &[4, 8]).unwrap();
    let padded = m.select(&[DimIndex::Full, DimIndex::Range(0, 6)]);
    assert_eq!(padded.dims(), &[4, 6]);
    assert_eq!(padded.strides(), vec![8, 1]);
    assert!(!padded.mapping().is_uniform());
    let elems = padded.to_vec();
    let a = padded.try_reshape(&[2, 2, 6]).unwrap();
    assert_eq!(a.strides(), vec![16, 8, 1]);
    assert_eq!(a.to_vec(), elems);
    let b = padded.try_reshape(&[4, 2, 3]).unwrap();
    assert_eq!(b.strides(), vec![8, 3, 1]);
    assert_eq!(b.to_vec(), elems);
    let c = padded.try_reshape(&[2, 2, 3, 2]).unwrap();
    assert_eq!(c.strides(), vec![16, 8, 2, 1]);
    assert_eq!(c.to_vec(), elems);
    let d = padded.try_reshape(&[1, 4, 1, 6, 1]).unwrap();
    assert_eq!(d.dims(), &[1, 4, 1, 6, 1]);
    assert_eq!(d.to_vec(), elems);
    assert_eq!(d.get(&[0, 3, 0, 5, 0]), Some(&29));
    assert_eq!(d.layout(), Layout::Strided);
    assert!(padded.try_reshape(&[24]).is_none());
    assert!(padded.try_reshape(&[8, 3]).is_none());
    assert!(padded.try_reshape(&[6, 4]).is_none());
    assert!(padded.try_reshape(&[3, 8]).is_none());
    assert!(padded.try_reshape(&[4, 5]).is_none());
    let back = c.try_reshape(&[4, 6]).unwrap();
    assert_eq!(back.strides(), vec![8, 1]);
    assert_eq!(back.to_vec(), elems);
}

#[test]
fn reshape_merges_axes_that_continue_each_other() {
    let m = Slice::from_vec((0..48).collect::<Vec<i32>>(), &[2, 3, 8]).unwrap();
    let part = m.select(&[DimIndex::Full, DimIndex::Full, DimIndex::Range(2, 6)]);
    assert_eq!(part.strides(), vec![24, 8, 1]);
    let merged = part.try_reshape(&[6, 4]).unwrap();
    assert_eq!(merged.strides(), vec![8, 1]);
    assert_eq!(merged.to_vec(), part.to_vec());
    let regrouped = part.try_reshape(&[3, 2, 2, 2]).unwrap();
    assert_eq!(regrouped.strides(), vec![16, 8, 2, 1]);
    assert_eq!(regrouped.to_vec(), part.to_vec());
    assert!(part.try_reshape(&[2, 12]).is_none());
    let t = part.transpose();
    assert_eq!(t.try_reshape(&[2, 2, 3, 2]).unwrap().to_vec(), t.to_vec());
    assert!(t.try_reshape(&[4, 6]).is_none());
}

#[test]
fn reshape_of_single_element_with_odd_strides() {
    let data = [1, 2, 3, 4, 5, 6];
    let map = Mapping::strided(Shape::new(&[1, 1]).unwrap(), vec![5, 7], 3, 6).unwrap();
    let v = ArrayView::from_parts(&data, map).unwrap();
    assert!(!v.mapping().is_uniform());
    let r = v.try_reshape(&[1, 1, 1]).unwrap();
    assert_eq!(r.to_vec(), vec![4]);
    assert_eq!(v.try_reshape(&[1]).unwrap().to_vec(), vec![4]);
    assert_eq!(v.try_reshape(&[]).unwrap().to_vec(), vec![4]);
    assert!(v.try_reshape(&[2]).is_none());
}
