use sparse_ldl::error::LdlError;
use sparse_ldl::matrix::CsMat;
use sparse_ldl::numeric::ldl_numeric;
use sparse_ldl::permutation::Permutation;
use sparse_ldl::solve::{ldl_dsolve, ldl_lsolve, ldl_ltsolve};
use sparse_ldl::symbolic::{ldl_symbolic, SymmetryCheck};

struct Factor {
    l_colptr: Vec<usize>,
    parents: Vec<isize>,
    l_indices: Vec<usize>,
    l_data: Vec<f64>,
    diag: Vec<f64>,
}

fn fixture() -> (usize, Vec<usize>, Vec<usize>, Vec<f64>) {
    let indptr = vec![0, 2, 5, 6, 7, 13, 14, 17, 20, 24, 28];
    let indices = vec![
        0, 8, 1, 4, 9, 2, 3, 1, 4, 6, 7, 8, 9, 5, 4, 6, 9, 4, 7, 8, 0, 4, 7, 8, 1, 4, 6, 9,
    ];
    let data = vec![
        1.7, 0.13, 1., 0.02, 0.01, 1.5, 1.1, 0.02, 2.6, 0.16, 0.09, 0.52, 0.53, 1.2, 0.16, 1.3,
        0.56, 0.09, 1.6, 0.11, 0.13, 0.52, 0.11, 1.4, 0.01, 0.53, 0.56, 3.1,
    ];
    (10, indptr, indices, data)
}

fn fixture_mat() -> CsMat<f64> {
    let (n, indptr, indices, data) = fixture();
    CsMat::from_vecs(n, indptr, indices, data).unwrap()
}

fn dense_of(mat: &CsMat<f64>) -> Vec<Vec<f64>> {
    let n = mat.rows();
    let mut a = vec![vec![0.0; n]; n];
    for j in 0..n {
        for p in mat.indptr[j]..mat.indptr[j + 1] {
            a[mat.indices[p]][j] = mat.data[p];
        }
    }
    a
}

fn factorize(mat: &CsMat<f64>, perm: &Permutation, fill: usize) -> Result<Factor, LdlError> {
    let n = mat.rows();
    let mut l_colptr = vec![fill; n + 1];
    let mut parents = vec![7; n];
    let mut l_nz = vec![fill; n];
    let mut flag_workspace = vec![fill; n];
    ldl_symbolic(
        mat,
        perm,
        &mut l_colptr,
        &mut parents,
        &mut l_nz,
        &mut flag_workspace,
        SymmetryCheck::CheckSymmetry,
    )?;
    let nnz = l_colptr[n];
    let mut l_indices = vec![fill; nnz];
    let mut l_data = vec![fill as f64; nnz];
    let mut diag = vec![fill as f64; n];
    let mut y_workspace = vec![fill as f64; n];
    let mut pattern_workspace = vec![fill; n];
    ldl_numeric(
        mat,
        &l_colptr,
        &parents,
        perm,
        &mut l_nz,
        &mut l_indices,
        &mut l_data,
        &mut diag,
        &mut y_workspace,
        &mut pattern_workspace,
        &mut flag_workspace,
        0.,
    )?;
    for y in y_workspace {
        assert_eq!(y, 0.);
    }
    Ok(Factor { l_colptr, parents, l_indices, l_data, diag })
}

fn dense_l(f: &Factor) -> Vec<Vec<f64>> {
    let n = f.diag.len();
    let mut l = vec![vec![0.0; n]; n];
    for j in 0..n {
        l[j][j] = 1.0;
        for p in f.l_colptr[j]..f.l_colptr[j + 1] {
            l[f.l_indices[p]][j] = f.l_data[p];
        }
    }
    l
}

fn reconstruct(f: &Factor) -> Vec<Vec<f64>> {
    let n = f.diag.len();
    let l = dense_l(f);
    let mut a = vec![vec![0.0; n]; n];
    for i in 0..n {
        for j in 0..n {
            for k in 0..n {
                a[i][j] += l[i][k] * f.diag[k] * l[j][k];
            }
        }
    }
    a
}

fn close(a: f64, b: f64) -> bool {
    (a - b).abs() <= 1e-12
}

#[test]
fn structure_is_the_same_for_other_values() {
    let (n, indptr, indices, data) = fixture();
    let other: Vec<f64> = data.iter().map(|v| 10.0 * v + 1.0).collect();
    let a = CsMat::from_vecs(n, indptr.clone(), indices.clone(), data).unwrap();
    let b = CsMat::from_vecs(n, indptr, indices, other).unwrap();
    let perm = Permutation::new(vec![3, 1, 4, 0, 5, 9, 2, 6, 8, 7]).unwrap();
    let fa = factorize(&a, &perm, 0).unwrap();
    let fb = factorize(&b, &perm, 0).unwrap();
    assert_eq!(fa.l_colptr, fb.l_colptr);
    assert_eq!(fa.parents, fb.parents);
    assert_eq!(fa.l_indices, fb.l_indices);
}

#[test]
fn structure_does_not_need_the_values_to_be_symmetric() {
    let n = 3;
    let indptr = vec![0, 2, 4, 7];
    let indices = vec![0, 2, 1, 2, 0, 1, 2];
    let a = CsMat::from_vecs(n, indptr.clone(), indices.clone(), vec![1; 7]).unwrap();
    let b = CsMat::from_vecs(n, indptr, indices, vec![1, 2, 3, 4, 5, 6, 7]).unwrap();
    let perm = Permutation::identity();
    let mut out = Vec::new();
    for m in [&a, &b] {
        let mut l_colptr = [9; 4];
        let mut parents = [9; 3];
        let mut l_nz = [9; 3];
        let mut flags = [9; 3];
        ldl_symbolic(
            m,
            &perm,
            &mut l_colptr,
            &mut parents,
            &mut l_nz,
            &mut flags,
            SymmetryCheck::DontCheckSymmetry,
        )
        .unwrap();
        out.push((l_colptr, parents, l_nz));
    }
    assert_eq!(out[0], out[1]);
    assert_eq!(out[0].0, [0, 1, 2, 2]);
    assert_eq!(out[0].1, [2, 2, -1]);
    assert_eq!(out[0].2, [1, 1, 0]);
}

#[test]
fn factor_reproduces_the_matrix() {
    let mat = fixture_mat();
    let f = factorize(&mat, &Permutation::identity(), 0).unwrap();
    let a = dense_of(&mat);
    let r = reconstruct(&f);
    for i in 0..10 {
        for j in 0..10 {
            assert!(close(a[i][j], r[i][j]), "entry {} {}: {} and {}", i, j, a[i][j], r[i][j]);
        }
    }
}

#[test]
fn factor_reproduces_the_permuted_matrix() {
    let mat = fixture_mat();
    let images = vec![3, 1, 4, 0, 5, 9, 2, 6, 8, 7];
    let perm = Permutation::new(images.clone()).unwrap();
    let f = factorize(&mat, &perm, 0).unwrap();
    let a = dense_of(&mat);
    let r = reconstruct(&f);
    for i in 0..10 {
        for j in 0..10 {
            let got = r[images[i]][images[j]];
            assert!(close(a[i][j], got), "entry {} {}: {} and {}", i, j, a[i][j], got);
        }
    }
}

#[test]
fn factor_of_an_indefinite_matrix() {
    // [[1, 2], [2, 1]] = L D Lt with L = [[1, 0], [2, 1]] and D = diag(1, -3)
    let mat = CsMat::from_vecs(2, vec![0, 2, 4], vec![0, 1, 0, 1], vec![1., 2., 2., 1.]).unwrap();
    let f = factorize(&mat, &Permutation::identity(), 0).unwrap();
    assert_eq!(f.l_colptr, vec![0, 1, 1]);
    assert_eq!(f.parents, vec![1, -1]);
    assert_eq!(f.l_indices, vec![1]);
    assert_eq!(f.l_data, vec![2.]);
    assert_eq!(f.diag, vec![1., -3.]);
}

#[test]
fn factor_with_fill_in() {
    // an arrow pointing up and left: eliminating column 0 fills the rest
    let mat = CsMat::from_vecs(
        3,
        vec![0, 3, 5, 7],
        vec![0, 1, 2, 0, 1, 0, 2],
        vec![4., 2., 2., 2., 5., 2., 6.],
    )
    .unwrap();
    let f = factorize(&mat, &Permutation::identity(), 0).unwrap();
    assert_eq!(f.parents, vec![1, 2, -1]);
    assert_eq!(f.l_colptr, vec![0, 2, 3, 3]);
    assert_eq!(f.l_indices, vec![1, 2, 2]);
    assert_eq!(f.l_data, vec![0.5, 0.5, -0.25]);
    assert_eq!(f.diag, vec![4., 4., 4.75]);
}

#[test]
fn permutation_avoids_the_fill_in() {
    // the same arrow with its point moved to the last place
    let mat = CsMat::from_vecs(
        3,
        vec![0, 3, 5, 7],
        vec![0, 1, 2, 0, 1, 0, 2],
        vec![4., 2., 2., 2., 5., 2., 6.],
    )
    .unwrap();
    let perm = Permutation::new(vec![2, 0, 1]).unwrap();
    let f = factorize(&mat, &perm, 0).unwrap();
    assert_eq!(f.parents, vec![2, 2, -1]);
    assert_eq!(f.l_colptr, vec![0, 1, 2, 2]);
    assert_eq!(f.l_indices, vec![2, 2]);
    assert_eq!(f.l_data, vec![0.4, 2. / 6.]);
    assert_eq!(f.diag[0], 5.);
    assert_eq!(f.diag[1], 6.);
    assert!(close(f.diag[2], 4. - 0.4 * 2. - (2. / 6.) * 2.));
}

#[test]
fn permuted_factor_is_the_factor_of_the_permuted_matrix() {
    let mat = fixture_mat();
    let images = vec![3, 1, 4, 0, 5, 9, 2, 6, 8, 7];
    let perm = Permutation::new(images.clone()).unwrap();
    let with_perm = factorize(&mat, &perm, 0).unwrap();

    // P A Pt written out, its columns sorted
    let a = dense_of(&mat);
    let mut b = vec![vec![0.0; 10]; 10];
    for i in 0..10 {
        for j in 0..10 {
            b[images[i]][images[j]] = a[i][j];
        }
    }
    let mut indptr = vec![0];
    let mut indices = Vec::new();
    let mut data = Vec::new();
    for j in 0..10 {
        for i in 0..10 {
            if b[i][j] != 0.0 {
                indices.push(i);
                data.push(b[i][j]);
            }
        }
        indptr.push(indices.len());
    }
    let permuted = CsMat::from_vecs(10, indptr, indices, data).unwrap();
    let plain = factorize(&permuted, &Permutation::identity(), 0).unwrap();

    assert_eq!(with_perm.l_colptr, plain.l_colptr);
    assert_eq!(with_perm.parents, plain.parents);
    assert_eq!(with_perm.l_indices, plain.l_indices);
    for p in 0..plain.l_data.len() {
        assert!(close(with_perm.l_data[p], plain.l_data[p]));
    }
    for k in 0..10 {
        assert!(close(with_perm.diag[k], plain.diag[k]));
    }
}

#[test]
fn solves_give_the_solution_of_the_system() {
    let mat = fixture_mat();
    let f = factorize(&mat, &Permutation::identity(), 0).unwrap();
    let b = vec![1.0, -2.0, 0.5, 3.0, 0.0, 7.0, -1.5, 2.0, 4.0, -3.0];
    let mut x = b.clone();
    ldl_lsolve(&f.l_colptr, &f.l_indices, &f.l_data, &mut x);
    ldl_dsolve(&f.diag, &mut x);
    ldl_ltsolve(&f.l_colptr, &f.l_indices, &f.l_data, &mut x);
    let a = dense_of(&mat);
    for i in 0..10 {
        let mut s = 0.0;
        for j in 0..10 {
            s += a[i][j] * x[j];
        }
        assert!(close(s, b[i]), "row {}: {} and {}", i, s, b[i]);
    }
}

#[test]
fn solves_with_a_permutation() {
    let mat = fixture_mat();
    let images = vec![3, 1, 4, 0, 5, 9, 2, 6, 8, 7];
    let perm = Permutation::new(images.clone()).unwrap();
    let f = factorize(&mat, &perm, 0).unwrap();
    let b = vec![0.287, 0.22, 0.45, 0.44, 2.486, 0.72, 1.55, 1.424, 1.621, 3.759];
    let mut x = vec![0.0; 10];
    for i in 0..10 {
        x[images[i]] = b[i];
    }
    ldl_lsolve(&f.l_colptr, &f.l_indices, &f.l_data, &mut x);
    ldl_dsolve(&f.diag, &mut x);
    ldl_ltsolve(&f.l_colptr, &f.l_indices, &f.l_data, &mut x);
    for i in 0..10 {
        let want = 0.1 * (i as f64 + 1.0);
        assert!(close(x[images[i]], want), "component {}: {} and {}", i, x[images[i]], want);
    }
}

#[test]
fn second_factorization_gives_the_same_factor() {
    let mat = fixture_mat();
    let perm = Permutation::new(vec![3, 1, 4, 0, 5, 9, 2, 6, 8, 7]).unwrap();
    let first = factorize(&mat, &perm, 0).unwrap();
    let second = factorize(&mat, &perm, 5).unwrap();
    assert_eq!(first.l_colptr, second.l_colptr);
    assert_eq!(first.parents, second.parents);
    assert_eq!(first.l_indices, second.l_indices);
    assert_eq!(first.l_data, second.l_data);
    assert_eq!(first.diag, second.diag);
}

#[test]
fn numeric_twice_on_the_same_buffers() {
    let mat = fixture_mat();
    let perm = Permutation::identity();
    let mut l_colptr = [0; 11];
    let mut parents = [0; 10];
    let mut l_nz = [0; 10];
    let mut flags = [0; 10];
    ldl_symbolic(
        &mat,
        &perm,
        &mut l_colptr,
        &mut parents,
        &mut l_nz,
        &mut flags,
        SymmetryCheck::DontCheckSymmetry,
    )
    .unwrap();
    let mut l_indices = vec![0; l_colptr[10]];
    let mut l_data = vec![0.; l_colptr[10]];
    let mut diag = [0.; 10];
    let mut y = [0.; 10];
    let mut pattern = [0; 10];
    let mut seen = Vec::new();
    for _ in 0..2 {
        ldl_numeric(
            &mat,
            &l_colptr,
            &parents,
            &perm,
            &mut l_nz,
            &mut l_indices,
            &mut l_data,
            &mut diag,
            &mut y,
            &mut pattern,
            &mut flags,
            0.,
        )
        .unwrap();
        seen.push((l_nz, l_indices.clone(), l_data.clone(), diag));
    }
    assert_eq!(seen[0], seen[1]);
    assert_eq!(seen[0].0, [1, 2, 0, 0, 4, 0, 3, 2, 1, 0]);
}

#[test]
fn asymmetric_values_are_refused_before_anything_is_written() {
    let mat = CsMat::from_vecs(2, vec![0, 2, 4], vec![0, 1, 0, 1], vec![4., 2., 3., 5.]).unwrap();
    let mut l_colptr = [11, 12, 13];
    let mut parents = [14, 15];
    let mut l_nz = [16, 17];
    let mut flags = [18, 19];
    let res = ldl_symbolic(
        &mat,
        &Permutation::identity(),
        &mut l_colptr,
        &mut parents,
        &mut l_nz,
        &mut flags,
        SymmetryCheck::CheckSymmetry,
    );
    assert_eq!(res, Err(LdlError::AsymmetricInput));
    assert_eq!(l_colptr, [11, 12, 13]);
    assert_eq!(parents, [14, 15]);
    assert_eq!(l_nz, [16, 17]);
    assert_eq!(flags, [18, 19]);
}

#[test]
fn asymmetric_pattern_is_refused() {
    let mat = CsMat::from_vecs(2, vec![0, 1, 3], vec![0, 0, 1], vec![4., 2., 5.]).unwrap();
    let res = factorize(&mat, &Permutation::identity(), 0);
    assert!(matches!(res, Err(LdlError::AsymmetricInput)));
}

#[test]
fn asymmetric_matrix_passes_without_the_check() {
    let mat = CsMat::from_vecs(2, vec![0, 1, 3], vec![0, 0, 1], vec![4., 2., 5.]).unwrap();
    let mut l_colptr = [0; 3];
    let mut parents = [0; 2];
    let mut l_nz = [0; 2];
    let mut flags = [0; 2];
    let res = ldl_symbolic(
        &mat,
        &Permutation::identity(),
        &mut l_colptr,
        &mut parents,
        &mut l_nz,
        &mut flags,
        SymmetryCheck::DontCheckSymmetry,
    );
    assert_eq!(res, Ok(()));
    assert_eq!(l_colptr, [0, 1, 1]);
    assert_eq!(parents, [1, -1]);
}

#[test]
fn zero_pivot_is_reported() {
    // [[1, 1], [1, 1]]: the second pivot is 1 - 1 * 1
    let mat = CsMat::from_vecs(2, vec![0, 2, 4], vec![0, 1, 0, 1], vec![1., 1., 1., 1.]).unwrap();
    let res = factorize(&mat, &Permutation::identity(), 0);
    assert!(matches!(res, Err(LdlError::SingularPivot)));
}

#[test]
fn zero_first_pivot_is_reported() {
    let mat = CsMat::from_vecs(2, vec![0, 1, 3], vec![1, 0, 1], vec![1., 1., 1.]).unwrap();
    let res = factorize(&mat, &Permutation::identity(), 0);
    assert!(matches!(res, Err(LdlError::SingularPivot)));
}

#[test]
fn other_order_avoids_the_zero_pivot() {
    // [[0, 1], [1, 1]] has no factor in this order, but has one in the other
    let mat = CsMat::from_vecs(2, vec![0, 1, 3], vec![1, 0, 1], vec![1., 1., 1.]).unwrap();
    let perm = Permutation::new(vec![1, 0]).unwrap();
    let f = factorize(&mat, &perm, 0).unwrap();
    assert_eq!(f.l_data, vec![1.]);
    assert_eq!(f.diag, vec![1., -1.]);
}

#[test]
fn factor_of_the_empty_matrix() {
    let mat = CsMat::<f64>::from_vecs(0, vec![0], vec![], vec![]).unwrap();
    let f = factorize(&mat, &Permutation::identity(), 0).unwrap();
    assert_eq!(f.l_colptr, vec![0]);
    assert!(f.diag.is_empty());
}

#[test]
fn factor_of_a_diagonal_matrix() {
    let mat = CsMat::from_vecs(3, vec![0, 1, 2, 3], vec![0, 1, 2], vec![2., -3., 0.5]).unwrap();
    let f = factorize(&mat, &Permutation::identity(), 0).unwrap();
    assert_eq!(f.l_colptr, vec![0, 0, 0, 0]);
    assert_eq!(f.parents, vec![-1, -1, -1]);
    assert_eq!(f.diag, vec![2., -3., 0.5]);
}

#[test]
fn factor_over_exact_integers() {
    // [[2, 4], [4, 2]] = L D Lt with L = [[1, 0], [2, 1]] and D = diag(2, -6)
    let mat = CsMat::from_vecs(2, vec![0, 2, 4], vec![0, 1, 0, 1], vec![2i64, 4, 4, 2]).unwrap();
    let mut l_colptr = [0; 3];
    let mut parents = [0; 2];
    let mut l_nz = [0; 2];
    let mut flags = [0; 2];
    let perm = Permutation::identity();
    ldl_symbolic(
        &mat,
        &perm,
        &mut l_colptr,
        &mut parents,
        &mut l_nz,
        &mut flags,
        SymmetryCheck::CheckSymmetry,
    )
    .unwrap();
    let mut l_indices = vec![0; l_colptr[2]];
    let mut l_data = vec![0i64; l_colptr[2]];
    let mut diag = [0i64; 2];
    let mut y = [0i64; 2];
    let mut pattern = [0; 2];
    ldl_numeric(
        &mat,
        &l_colptr,
        &parents,
        &perm,
        &mut l_nz,
        &mut l_indices,
        &mut l_data,
        &mut diag,
        &mut y,
        &mut pattern,
        &mut flags,
        0,
    )
    .unwrap();
    assert_eq!(l_indices, vec![1]);
    assert_eq!(l_data, vec![2]);
    assert_eq!(diag, [2, -6]);
}

#[test]
fn rounding_keeps_the_reconstruction_from_being_exact() {
    let mat = fixture_mat();
    let f = factorize(&mat, &Permutation::identity(), 0).unwrap();
    let a = dense_of(&mat);
    let r = reconstruct(&f);
    let mut inexact = 0;
    for i in 0..10 {
        for j in 0..10 {
            if a[i][j] != r[i][j] {
                inexact += 1;
            }
        }
    }
    println!("entries that differ: {}", inexact);
    assert!(inexact > 0);
}

#[test]
fn exact_arithmetic_reproduces_the_matrix() {
    // over the integers every division of this factorization is exact
    let mat = CsMat::from_vecs(
        3,
        vec![0, 3, 6, 9],
        vec![0, 1, 2, 0, 1, 2, 0, 1, 2],
        vec![2i64, 4, -2, 4, 10, -2, -2, -2, 5],
    )
    .unwrap();
    let perm = Permutation::identity();
    let mut l_colptr = [0; 4];
    let mut parents = [0; 3];
    let mut l_nz = [0; 3];
    let mut flags = [0; 3];
    ldl_symbolic(
        &mat,
        &perm,
        &mut l_colptr,
        &mut parents,
        &mut l_nz,
        &mut flags,
        SymmetryCheck::CheckSymmetry,
    )
    .unwrap();
    let mut l_indices = vec![0; l_colptr[3]];
    let mut l_data = vec![0i64; l_colptr[3]];
    let mut diag = [0i64; 3];
    let mut y = [0i64; 3];
    let mut pattern = [0; 3];
    ldl_numeric(
        &mat,
        &l_colptr,
        &parents,
        &perm,
        &mut l_nz,
        &mut l_indices,
        &mut l_data,
        &mut diag,
        &mut y,
        &mut pattern,
        &mut flags,
        0,
    )
    .unwrap();
    // L = [[1, 0, 0], [2, 1, 0], [-1, 1, 1]], D = diag(2, 2, 1)
    assert_eq!(l_colptr, [0, 2, 3, 3]);
    assert_eq!(l_indices, vec![1, 2, 2]);
    assert_eq!(l_data, vec![2, -1, 1]);
    assert_eq!(diag, [2, 2, 1]);
    let l = [[1i64, 0, 0], [2, 1, 0], [-1, 1, 1]];
    let a = [[2i64, 4, -2], [4, 10, -2], [-2, -2, 5]];
    for i in 0..3 {
        for k in 0..3 {
            let mut sum = 0;
            for j in 0..3 {
                sum += l[i][j] * (diag[j] * l[k][j]);
            }
            assert_eq!(sum, a[i][k]);
        }
    }

    // A (1, -2, 3) = (-12, -22, 17)
    let mut x = vec![-12i64, -22, 17];
    ldl_lsolve(&l_colptr, &l_indices, &l_data, &mut x);
    assert_eq!(x, vec![-12, 2, 3]);
    ldl_dsolve(&diag, &mut x);
    assert_eq!(x, vec![-6, 1, 3]);
    ldl_ltsolve(&l_colptr, &l_indices, &l_data, &mut x);
    assert_eq!(x, vec![1, -2, 3]);
}
