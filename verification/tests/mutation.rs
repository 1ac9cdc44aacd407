use mdarray::expr::{collect, BroadcastError, Expression, Iter, Zip};
use mdarray::layout::Layout;
use mdarray::slice::Slice;
use mdarray::view::ArrayView;
use mdarray::view_mut::ArrayViewMut;

fn matrix() -> Slice<i32> {
    Slice::from_vec(vec![1, 2, 3, 4, 5, 6], &[2, 3]).unwrap()
}

#[test]
fn fill_assigns_every_element() {
    let mut m = matrix();
    m.fill(9);
    assert_eq!(m.to_vec(), vec![9; 6]);
}

#[test]
fn fill_of_a_column_leaves_the_rest() {
    let mut m = matrix();
    m.col_mut(1).fill(0);
    assert_eq!(m.to_vec(), vec![1, 0, 3, 4, 0, 6]);
    m.row_mut(1).fill(7);
    assert_eq!(m.to_vec(), vec![1, 0, 3, 7, 7, 7]);
    m.diag_mut(1).fill(8);
    assert_eq!(m.to_vec(), vec![1, 8, 3, 7, 7, 8]);
}

#[test]
fn fill_with_calls_in_row_major_order() {
    let mut m = matrix();
    let mut n = 0;
    m.transpose_mut().fill_with(|| {
        n += 10;
        n
    });
    assert_eq!(m.to_vec(), vec![10, 30, 50, 20, 40, 60]);
    let mut k = 0;
    m.fill_with(|| {
        k += 1;
        k
    });
    assert_eq!(m.to_vec(), vec![1, 2, 3, 4, 5, 6]);
}

#[test]
fn assign_broadcasts_the_source() {
    let mut m = matrix();
    let row = [10, 20, 30];
    let src = ArrayView::new(&row, &[1, 3]).unwrap();
    m.assign(&src);
    assert_eq!(m.to_vec(), vec![10, 20, 30, 10, 20, 30]);
    let col = [1, 2];
    m.assign(&ArrayView::new(&col, &[2, 1]).unwrap());
    assert_eq!(m.to_vec(), vec![1, 1, 1, 2, 2, 2]);
    let one = [5];
    m.assign(&ArrayView::new(&one, &[]).unwrap());
    assert_eq!(m.to_vec(), vec![5; 6]);
    let all = [6, 5, 4, 3, 2, 1];
    m.assign(&ArrayView::new(&all, &[2, 3]).unwrap());
    assert_eq!(m.to_vec(), vec![6, 5, 4, 3, 2, 1]);
}

#[test]
fn assign_to_a_transposed_view() {
    let mut m = matrix();
    let src = [1, 2, 3, 4, 5, 6];
    let v = ArrayView::new(&src, &[3, 2]).unwrap();
    m.transpose_mut().assign(&v);
    assert_eq!(m.to_vec(), vec![1, 3, 5, 2, 4, 6]);
}

#[test]
fn checked_and_unchecked_access_agree() {
    let mut m = Slice::from_vec((0..24).collect::<Vec<i32>>(), &[2, 3, 4]).unwrap();
    for i in 0..2 {
        for j in 0..3 {
            for k in 0..4 {
                let idx = [i, j, k];
                let expected = (i * 12 + j * 4 + k) as i32;
                assert_eq!(m.get(&idx), Some(&expected));
                assert_eq!(m.get(&idx).unwrap(), m.get_unchecked(&idx));
                let t = m.transpose();
                assert_eq!(t.get(&[k, j, i]), Some(t.get_unchecked(&[k, j, i])));
                assert_eq!(t.get_unchecked(&[k, j, i]), &expected);
                let checked = *m.get_mut(&idx).unwrap();
                assert_eq!(checked, *m.get_unchecked_mut(&idx));
            }
        }
    }
    assert_eq!(m.get(&[2, 0, 0]), None);
    assert_eq!(m.get(&[0, 3, 0]), None);
    assert_eq!(m.get(&[0, 0]), None);
    assert_eq!(m.get(&[0, 0, 0, 0]), None);
    assert!(m.get_mut(&[0, 0, 4]).is_none());
}

#[test]
fn access_by_index_and_by_position_agree() {
    let m = Slice::from_vec((0..24).collect::<Vec<i32>>(), &[2, 3, 4]).unwrap();
    let p = m.permute(&[1, 2, 0]);
    let mut pos = 0;
    for a in 0..3 {
        for b in 0..4 {
            for c in 0..2 {
                assert_eq!(p.get_unchecked(&[a, b, c]), p.item(pos));
                assert_eq!(p.mapping().offset(&[a, b, c]), p.mapping().linear_offset(pos));
                pos += 1;
            }
        }
    }
}

#[test]
fn element_assignment_through_references() {
    let mut m = matrix();
    *m.get_mut(&[1, 0]).unwrap() = 40;
    *m.get_unchecked_mut(&[0, 2]) = 30;
    *m.transpose_mut().get_unchecked_mut(&[1, 0]) = 20;
    assert_eq!(m.to_vec(), vec![1, 20, 30, 40, 5, 6]);
}

#[test]
fn mutable_split_hands_out_both_parts() {
    let mut m = matrix();
    let mut parts = m.split_axis_at_mut(1, 1);
    parts.first_mut().fill(0);
    parts.second_mut().fill(1);
    assert_eq!(parts.first_mut().as_view().dims(), &[2, 1]);
    assert_eq!(parts.second_mut().as_view().dims(), &[2, 2]);
    assert_eq!(m.to_vec(), vec![0, 1, 1, 0, 1, 1]);
    let mut halves = m.split_at_mut(1);
    halves.second_mut().fill(2);
    halves.into_first().fill(3);
    assert_eq!(m.to_vec(), vec![3, 3, 3, 2, 2, 2]);
    m.split_at_mut(2).into_second().fill(9);
    assert_eq!(m.to_vec(), vec![3, 3, 3, 2, 2, 2]);
}

#[test]
fn mutable_views_of_parts() {
    let mut m = matrix();
    m.at_mut(0).fill(0);
    assert_eq!(m.to_vec(), vec![0, 0, 0, 4, 5, 6]);
    m.axis_at_mut(1, 2).fill(7);
    assert_eq!(m.to_vec(), vec![0, 0, 7, 4, 5, 7]);
    m.flatten_mut().at(3).fill(1);
    assert_eq!(m.to_vec(), vec![0, 0, 7, 1, 5, 7]);
    m.reshape_mut(&[3, usize::MAX]).row(2).fill(2);
    assert_eq!(m.to_vec(), vec![0, 0, 7, 1, 2, 2]);
    m.permute_mut(&[1, 0]).at(0).fill(3);
    assert_eq!(m.to_vec(), vec![3, 0, 7, 3, 2, 2]);
    m.reorder_mut().at(1).fill(4);
    assert_eq!(m.to_vec(), vec![3, 4, 7, 3, 4, 2]);
    m.remap_mut(Layout::Strided).col(2).fill(5);
    assert_eq!(m.to_vec(), vec![3, 4, 5, 3, 4, 5]);
    let mut whole = m.expr_mut();
    assert_eq!(whole.len(), 6);
    whole.reborrow().lane(0, 1).fill(6);
    whole.fill_with(|| 1);
    assert_eq!(m.to_vec(), vec![1; 6]);
}

#[test]
fn mutable_view_over_borrowed_memory() {
    let mut data = [1, 2, 3, 4];
    assert!(ArrayViewMut::new(&mut data, &[3]).is_none());
    let v = ArrayViewMut::new(&mut data, &[2, 2]).unwrap();
    v.transpose().at(0).fill(0);
    assert_eq!(data, [0, 2, 0, 4]);
}

#[test]
fn iteration_is_row_major() {
    let m = matrix();
    let t = m.transpose();
    let mut it = Iter::new(t.duplicate());
    let mut seen = Vec::new();
    while let Some(x) = it.next() {
        seen.push(*x);
    }
    assert_eq!(seen, vec![1, 4, 2, 5, 3, 6]);
    assert_eq!(it.next(), None);
    let mut all = m.iter();
    assert_eq!(all.next(), Some(&1));
    assert_eq!(all.next(), Some(&2));
    let refs = collect(&t);
    assert_eq!(refs, vec![&1, &4, &2, &5, &3, &6]);
}

#[test]
fn mutable_iteration_assigns_in_order() {
    let mut m = matrix();
    let mut it = m.iter_mut();
    let mut n = 0;
    while let Some(x) = it.next() {
        n += 1;
        *x = *x * 10 + n;
    }
    assert_eq!(n, 6);
    assert_eq!(m.to_vec(), vec![11, 22, 33, 44, 55, 66]);
}

#[test]
fn axis_expressions_give_sub_arrays() {
    let m = Slice::from_vec((0..24).collect::<Vec<i32>>(), &[2, 3, 4]).unwrap();
    let outer = m.outer_expr();
    assert_eq!(outer.len(), 2);
    assert_eq!(outer.item(1).dims(), &[3, 4]);
    assert_eq!(outer.item(1).layout(), Layout::Dense);
    assert_eq!(outer.item(1).to_vec(), (12..24).collect::<Vec<i32>>());
    let mid = m.axis_expr(1);
    assert_eq!(mid.len(), 3);
    assert_eq!(mid.item(2).dims(), &[2, 4]);
    assert_eq!(mid.item(2).layout(), Layout::Strided);
    assert_eq!(mid.item(2).to_vec(), vec![8, 9, 10, 11, 20, 21, 22, 23]);
    let views = collect(&mid);
    assert_eq!(views.len(), 3);
    assert_eq!(views[0].to_vec(), vec![0, 1, 2, 3, 12, 13, 14, 15]);
}

#[test]
fn mutable_axis_expressions() {
    let mut m = matrix();
    let mut cols = m.axis_expr_mut(1);
    assert_eq!(cols.len(), 3);
    cols.item_mut(0).fill(0);
    cols.item_mut(2).fill(2);
    assert_eq!(m.to_vec(), vec![0, 2, 2, 0, 5, 2]);
    let mut rows = m.outer_expr_mut();
    assert_eq!(rows.len(), 2);
    rows.item_mut(1).fill(9);
    assert_eq!(m.to_vec(), vec![0, 2, 2, 9, 9, 9]);
}

#[test]
fn lanes_rows_and_cols() {
    let m = Slice::from_vec((0..24).collect::<Vec<i32>>(), &[2, 3, 4]).unwrap();
    let rows = m.rows();
    assert_eq!(rows.len(), 6);
    assert_eq!(rows.item(0).to_vec(), vec![0, 1, 2, 3]);
    assert_eq!(rows.item(5).to_vec(), vec![20, 21, 22, 23]);
    assert_eq!(rows.item(5).layout(), Layout::Dense);
    let cols = m.cols();
    assert_eq!(cols.len(), 8);
    assert_eq!(cols.item(0).to_vec(), vec![0, 4, 8]);
    assert_eq!(cols.item(5).to_vec(), vec![13, 17, 21]);
    assert_eq!(cols.item(5).layout(), Layout::Strided);
    let first = m.lanes(0);
    assert_eq!(first.len(), 12);
    assert_eq!(first.item(7).to_vec(), vec![7, 19]);
    let e: Slice<i32> = Slice::from_vec(vec![], &[2, 0]).unwrap();
    assert_eq!(e.rows().len(), 2);
    assert_eq!(e.rows().item(1).len(), 0);
    assert_eq!(e.cols().len(), 0);
}

#[test]
fn mutable_lanes() {
    let mut m = matrix();
    let mut cols = m.cols_mut();
    assert_eq!(cols.len(), 3);
    cols.item_mut(1).fill(0);
    let mut rows = m.rows_mut();
    assert_eq!(rows.len(), 2);
    rows.item_mut(0).fill_with(|| 7);
    assert_eq!(m.to_vec(), vec![7, 7, 7, 4, 0, 6]);
    let mut lanes = m.lanes_mut(0);
    lanes.item_mut(2).fill(1);
    assert_eq!(m.to_vec(), vec![7, 7, 1, 4, 0, 1]);
}

#[test]
fn zip_pairs_with_broadcasting() {
    let a = [1, 2, 3, 4, 5, 6];
    let b = [10, 20];
    let left = ArrayView::new(&a, &[2, 3]).unwrap();
    let right = ArrayView::new(&b, &[2, 1]).unwrap();
    let zip = match Zip::new(&left, &right) {
        Ok(zip) => zip,
        Err(_) => panic!("compatible shapes"),
    };
    assert_eq!(zip.len(), 6);
    let pairs: Vec<(i32, i32)> = collect(&zip).into_iter().map(|(x, y)| (*x, *y)).collect();
    assert_eq!(pairs, vec![(1, 10), (2, 10), (3, 10), (4, 20), (5, 20), (6, 20)]);
    assert_eq!(zip.right.strides(), vec![1, 0]);
    assert_eq!(zip.right.layout(), Layout::Strided);
    assert_eq!(zip.left.layout(), Layout::Dense);
}

#[test]
fn zip_with_a_scalar_and_both_sides_repeated() {
    let a = [1, 2, 3];
    let b = [10, 20];
    let s = [7];
    let row = ArrayView::new(&a, &[1, 3]).unwrap();
    let col = ArrayView::new(&b, &[2, 1]).unwrap();
    let one = ArrayView::new(&s, &[]).unwrap();
    let zip = Zip::new(&row, &col).ok().unwrap();
    assert_eq!(zip.left.dims(), &[2, 3]);
    let sums: Vec<i32> = collect(&zip).into_iter().map(|(x, y)| x + y).collect();
    assert_eq!(sums, vec![11, 12, 13, 21, 22, 23]);
    let zip = Zip::new(&one, &row).ok().unwrap();
    let pairs: Vec<(i32, i32)> = collect(&zip).into_iter().map(|(x, y)| (*x, *y)).collect();
    assert_eq!(pairs, vec![(7, 1), (7, 2), (7, 3)]);
}

#[test]
fn zip_reports_why_shapes_do_not_fit() {
    let a = [1, 2, 3, 4, 5, 6];
    let left = ArrayView::new(&a, &[2, 3]).unwrap();
    let right = ArrayView::new(&a, &[3, 2]).unwrap();
    assert_eq!(Zip::new(&left, &right).err(), Some(BroadcastError::Incompatible));
    let flat = ArrayView::new(&a, &[6]).unwrap();
    assert_eq!(Zip::new(&left, &flat).err(), Some(BroadcastError::Incompatible));
    let units = vec![(); 1 << 40];
    let tall = ArrayView::new(&units, &[1 << 40, 1]).unwrap();
    let wide = ArrayView::new(&units, &[1, 1 << 40]).unwrap();
    assert_eq!(Zip::new(&tall, &wide).err(), Some(BroadcastError::TooLarge));
}

#[test]
fn apply_and_zip_with_are_lazy_maps() {
    let m = matrix();
    let doubled = m.apply(|x: &i32| x * 2);
    assert_eq!(doubled.len(), 6);
    assert_eq!(doubled.item(4), 10);
    assert_eq!(collect(&doubled), vec![2, 4, 6, 8, 10, 12]);
    let w = [100, 200, 300];
    let weights = ArrayView::new(&w, &[1, 3]).unwrap();
    let sums = m.zip_with(&weights, |(x, y): (&i32, &i32)| x + y).ok().unwrap();
    assert_eq!(collect(&sums), vec![101, 202, 303, 104, 205, 306]);
    let bad = ArrayView::new(&w, &[3, 1]).unwrap();
    assert!(m.zip_with(&bad, |(x, y): (&i32, &i32)| x + y).is_err());
}

#[test]
fn broadcast_view_repeats_elements() {
    let a = [1, 2, 3];
    let row = ArrayView::new(&a, &[1, 3]).unwrap();
    let b = row.broadcast(&[2, 3]);
    assert_eq!(b.to_vec(), vec![1, 2, 3, 1, 2, 3]);
    assert_eq!(b.strides(), vec![0, 1]);
    assert_eq!(row.broadcast(&[1, 3]).layout(), Layout::Dense);
}
