use gauss::layout::exact_square_root;
use gauss::matrix::Matrix;
use gauss::solver::solve;

#[test]
fn new_matrix_some() {
    let m = Matrix::new(vec![1., 2., 3., 4.]);
    assert!(m.is_some());
    assert_eq!(m.unwrap().dimension(), 2);
}

#[test]
fn new_matrix_none() {
    let m = Matrix::new(vec![1., 2., 3.]);
    assert!(m.is_none());
}

#[test]
fn new_matrix_keeps_values_in_order() {
    let m = Matrix::new(vec![1., 2., 3., 4., 5., 6., 7., 8., 9.]).unwrap();
    assert_eq!(m.dimension(), 3);
    assert_eq!(*m.vals(), vec![1., 2., 3., 4., 5., 6., 7., 8., 9.]);
}

#[test]
fn new_matrix_empty_has_dimension_zero() {
    let m: Option<Matrix<f64>> = Matrix::new(vec![]);
    assert_eq!(m.unwrap().dimension(), 0);
}

#[test]
fn new_matrix_sizes_around_squares() {
    for len in 0usize..50 {
        let m = Matrix::new(vec![0.0f64; len]);
        let root = (0usize..=len).find(|k| k * k == len);
        match root {
            Some(k) => assert_eq!(m.unwrap().dimension(), k),
            None => assert!(m.is_none()),
        }
    }
}

#[test]
fn exact_square_root_values() {
    assert_eq!(exact_square_root(0), Some(0));
    assert_eq!(exact_square_root(1), Some(1));
    assert_eq!(exact_square_root(2), None);
    assert_eq!(exact_square_root(16), Some(4));
    assert_eq!(exact_square_root(17), None);
    assert_eq!(exact_square_root(4_294_967_296), Some(65_536));
    assert_eq!(exact_square_root((1usize << 40) + 1), None);
    assert_eq!(exact_square_root(1usize << 40), Some(1 << 20));
}

#[test]
fn solve_3_dim() {
    let mut m = Matrix::new(vec![1., 1., -2., 3., -1., 1., 2., 3., 5.]).unwrap();
    assert_eq!(vec![2., 3., -1.], m.solve(vec![7., 2., 8.]).unwrap());
}

#[test]
fn solve_4_dim() {
    let mut m = Matrix::new(vec![
        1., 2., -3., -1.,
        0., -3., 2., 6.,
        -3., -1., 3., 1.,
        2., 3., 2., -1.]).unwrap();
    let result = m.solve(vec![0., -8., 0., -8.]).unwrap();
    assert_eq!(result, vec![-1., -2., -1., -2.]);
}

#[test]
fn solve_leaves_identity_behind() {
    let mut m = Matrix::new(vec![1., 1., -2., 3., -1., 1., 2., 3., 5.]).unwrap();
    assert!(m.solve(vec![7., 2., 8.]).is_some());
    assert!(m.is_identity_form());
}

#[test]
fn solve_owned_matrix() {
    let m = Matrix::new(vec![1., 1., -2., 3., -1., 1., 2., 3., 5.]).unwrap();
    assert_eq!(solve(m, vec![7., 2., 8.]), Some(vec![2., 3., -1.]));
}

#[test]
fn solve_one_by_one() {
    let mut m = Matrix::new(vec![4.]).unwrap();
    assert_eq!(m.solve(vec![2.]), Some(vec![0.5]));
}

#[test]
fn solve_zero_by_zero() {
    let mut m: Matrix<f64> = Matrix::new(vec![]).unwrap();
    assert_eq!(m.solve(vec![]), Some(vec![]));
}

#[test]
fn solve_zero_pivot_is_no_solution() {
    let mut m = Matrix::new(vec![0.]).unwrap();
    assert_eq!(m.solve(vec![1.]), None);
}

#[test]
fn solve_infinite_right_hand_side_is_no_solution() {
    let mut m = Matrix::new(vec![1.]).unwrap();
    assert_eq!(m.solve(vec![f64::INFINITY]), None);
}

#[test]
fn solve_dimension_mismatch() {
    let mut m = Matrix::new(vec![1., 0., 0., 1.]).unwrap();
    assert_eq!(m.solve(vec![1., 2., 3.]), None);
    assert_eq!(*m.vals(), vec![1., 0., 0., 1.]);
    assert_eq!(m.solve(vec![1.]), None);
}

#[test]
fn pivot_swap() {
    let mut m = Matrix::new(vec![1., 2., 3., 4., 5., 6., 7., 8., 9.]).unwrap();
    m.pivot_rows(1, &mut vec![1., 2., 3.]);
    assert_eq!(*m.vals(), vec![1., 2., 3., 4., 5., 6., 7., 8., 9.]);
}

#[test]
fn pivot_dont_swap() {
    let mut m = Matrix::new(vec![1., 2., 3., 4., 5., 6., 1., 2., 3.]).unwrap();
    m.pivot_rows(1, &mut vec![1., 2., 3.]);
    assert_eq!(*m.vals(), vec![1., 2., 3., 4., 2., 3., 1., 5., 6.]);
}

#[test]
fn pivot_moves_right_hand_side_too() {
    let mut m = Matrix::new(vec![5., 1., 2., 3.]).unwrap();
    let mut b = vec![10., 20.];
    m.pivot_rows(0, &mut b);
    assert_eq!(*m.vals(), vec![2., 3., 5., 1.]);
    assert_eq!(b, vec![20., 10.]);
}

#[test]
fn pivot_ties_keep_earlier_row() {
    let mut m = Matrix::new(vec![1., 1., 1., 4., 2., 3., 9., 9., 9.]).unwrap();
    let mut b = vec![1., 2., 3.];
    m.pivot_rows(0, &mut b);
    assert_eq!(*m.vals(), vec![1., 1., 1., 4., 2., 3., 9., 9., 9.]);
    assert_eq!(b, vec![1., 2., 3.]);
}

#[test]
fn pivot_in_place_changes_nothing() {
    let vals = vec![1., 2., 3., 4., 1., 6., 7., 8., 9.];
    let mut m = Matrix::new(vals.clone()).unwrap();
    let mut b = vec![1., 2., 3.];
    m.pivot_rows(1, &mut b);
    assert_eq!(*m.vals(), vals);
    assert_eq!(b, vec![1., 2., 3.]);
}

#[test]
fn no_solution() {
    let mut m = Matrix::new(vec![1., 2., 3., 4., 5., 6., 7., 8., 9.]).unwrap();
    let result = m.solve(vec![2., 2., 2.]);
    println!("{:?}", result);
    assert_eq!(result, None);
}

#[test]
fn dependent_rows_no_solution() {
    let mut m = Matrix::new(vec![1., 2., 2., 4.]).unwrap();
    assert_eq!(m.solve(vec![3., 6.]), None);
}

#[test]
fn is_identity_form() {
    let m = Matrix::new(vec![1., 0., 0., 0., 1., 0., 0., 0., 1.]).unwrap();
    assert!(m.is_identity_form());
}

#[test]
fn is_not_identity_form() {
    let m = Matrix::new(vec![1., 0., 0., 0., 1., 0., 0., 2., 1.]).unwrap();
    assert!(!m.is_identity_form());
}

#[test]
fn is_not_identity_form_diagonal() {
    let m = Matrix::new(vec![1., 0., 0., 2.]).unwrap();
    assert!(!m.is_identity_form());
}

#[test]
fn to_text_layout() {
    let m = Matrix::new(vec![1., 2.5, -3., 4.]).unwrap();
    assert_eq!(m.to_text(), "[1, 2.5, \n-3, 4]");
    let one = Matrix::new(vec![5.]).unwrap();
    assert_eq!(one.to_text(), "[5]");
    let none: Matrix<f64> = Matrix::new(vec![]).unwrap();
    assert_eq!(none.to_text(), "[]");
}
