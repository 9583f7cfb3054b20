use sparse_ldl::solve::{ldl_dsolve, ldl_lsolve, ldl_ltsolve};

#[test]
fn dsolve_divides_each_component() {
    let d = vec![2.0, 4.0, -0.5];
    let mut x = vec![1.0, 2.0, 3.0];
    ldl_dsolve(&d, &mut x);
    assert_eq!(x, vec![0.5, 0.5, -6.0]);
}

#[test]
fn dsolve_of_nothing_changes_nothing() {
    let d: Vec<f64> = vec![];
    let mut x: Vec<f64> = vec![];
    ldl_dsolve(&d, &mut x);
    assert!(x.is_empty());
}

// L = [[1, 0, 0], [2, 1, 0], [3, 4, 1]]
fn unit_lower() -> (Vec<usize>, Vec<usize>, Vec<i64>) {
    (vec![0, 2, 3, 3], vec![1, 2, 2], vec![2, 3, 4])
}

#[test]
fn lsolve_substitutes_forward() {
    let (lp, li, lx) = unit_lower();
    // L z = (1, 4, 14) has the solution z = (1, 2, 3)
    let mut x = vec![1, 4, 14];
    ldl_lsolve(&lp, &li, &lx, &mut x);
    assert_eq!(x, vec![1, 2, 3]);
}

#[test]
fn ltsolve_substitutes_backward() {
    let (lp, li, lx) = unit_lower();
    // Lt z = (14, 14, 3) has the solution z = (1, 2, 3)
    let mut x = vec![14, 14, 3];
    ldl_ltsolve(&lp, &li, &lx, &mut x);
    assert_eq!(x, vec![1, 2, 3]);
}

#[test]
fn lsolve_takes_the_columns_in_increasing_order() {
    let (lp, li, lx) = unit_lower();
    let mut x = vec![1, 0, 0];
    ldl_lsolve(&lp, &li, &lx, &mut x);
    // x1 = 0 - 2 * 1, x2 = 0 - 3 * 1 - 4 * x1
    assert_eq!(x, vec![1, -2, 5]);
}

#[test]
fn ltsolve_takes_the_columns_in_decreasing_order() {
    let (lp, li, lx) = unit_lower();
    let mut x = vec![0, 0, 1];
    ldl_ltsolve(&lp, &li, &lx, &mut x);
    // x1 = 0 - 4 * 1, x0 = 0 - 2 * x1 - 3 * 1
    assert_eq!(x, vec![5, -4, 1]);
}

#[test]
fn solves_with_an_empty_factor_change_nothing() {
    let lp = vec![0, 0, 0];
    let li: Vec<usize> = vec![];
    let lx: Vec<f64> = vec![];
    let mut x = vec![1.5, -2.5];
    ldl_lsolve(&lp, &li, &lx, &mut x);
    ldl_ltsolve(&lp, &li, &lx, &mut x);
    assert_eq!(x, vec![1.5, -2.5]);
}

#[test]
fn solves_of_dimension_zero() {
    let lp = vec![0];
    let li: Vec<usize> = vec![];
    let lx: Vec<f64> = vec![];
    let mut x: Vec<f64> = vec![];
    ldl_lsolve(&lp, &li, &lx, &mut x);
    ldl_ltsolve(&lp, &li, &lx, &mut x);
    assert!(x.is_empty());
}
