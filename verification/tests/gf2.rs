use sparse_ldl::error::LdlError;
use sparse_ldl::gf2::Gf2;
use sparse_ldl::matrix::CsMat;
use sparse_ldl::numeric::ldl_numeric;
use sparse_ldl::permutation::Permutation;
use sparse_ldl::solve::{ldl_dsolve, ldl_lsolve, ldl_ltsolve};
use sparse_ldl::symbolic::{ldl_symbolic, SymmetryCheck};

const O: Gf2 = Gf2 { one: false };
const I: Gf2 = Gf2 { one: true };

#[test]
fn gf2_tables() {
    assert_eq!(Gf2::zero(), O);
    assert_eq!(Gf2::unit(), I);
    assert_eq!([O + O, O + I, I + O, I + I], [O, I, I, O]);
    assert_eq!([O - O, O - I, I - O, I - I], [O, I, I, O]);
    assert_eq!([O * O, O * I, I * O, I * I], [O, O, O, I]);
    assert_eq!([O / I, I / I], [O, I]);
    assert!(O != I);
}

fn factorize(mat: &CsMat<Gf2>) -> Result<(Vec<usize>, Vec<usize>, Vec<Gf2>, Vec<Gf2>), LdlError> {
    let n = mat.rows();
    let perm = Permutation::identity();
    let mut l_colptr = vec![0; n + 1];
    let mut parents = vec![0; n];
    let mut l_nz = vec![0; n];
    let mut flags = vec![0; n];
    ldl_symbolic(
        mat,
        &perm,
        &mut l_colptr,
        &mut parents,
        &mut l_nz,
        &mut flags,
        SymmetryCheck::CheckSymmetry,
    )?;
    let mut l_indices = vec![0; l_colptr[n]];
    let mut l_data = vec![O; l_colptr[n]];
    let mut diag = vec![O; n];
    let mut y = vec![I; n];
    let mut pattern = vec![0; n];
    ldl_numeric(
        mat,
        &l_colptr,
        &parents,
        &perm,
        &mut l_nz,
        &mut l_indices,
        &mut l_data,
        &mut diag,
        &mut y,
        &mut pattern,
        &mut flags,
        O,
    )?;
    assert_eq!(y, vec![O; n]);
    Ok((l_colptr, l_indices, l_data, diag))
}

// [[1, 1, 0], [1, 0, 1], [0, 1, 0]], with the zeros left out of the storage
fn regular() -> ([[Gf2; 3]; 3], CsMat<Gf2>) {
    let a = [[I, I, O], [I, O, I], [O, I, O]];
    let mat =
        CsMat::from_vecs(3, vec![0, 2, 4, 5], vec![0, 1, 0, 2, 1], vec![I, I, I, I, I]).unwrap();
    (a, mat)
}

#[test]
fn factor_over_gf2_reproduces_the_matrix() {
    let (a, mat) = regular();
    let (l_colptr, l_indices, l_data, diag) = factorize(&mat).unwrap();
    assert_eq!(l_colptr, vec![0, 1, 2, 2]);
    assert_eq!(l_indices, vec![1, 2]);
    assert_eq!(l_data, vec![I, I]);
    assert_eq!(diag, vec![I, I, I]);
    let mut l = [[O; 3]; 3];
    for j in 0..3 {
        l[j][j] = I;
        for p in l_colptr[j]..l_colptr[j + 1] {
            l[l_indices[p]][j] = l_data[p];
        }
    }
    for i in 0..3 {
        for k in 0..3 {
            let mut sum = O;
            for j in 0..3 {
                sum = sum + l[i][j] * (diag[j] * l[k][j]);
            }
            assert_eq!(sum, a[i][k]);
        }
    }
}

#[test]
fn solve_over_gf2() {
    let (a, mat) = regular();
    let (l_colptr, l_indices, l_data, diag) = factorize(&mat).unwrap();
    for bits in 0..8 {
        let b = vec![
            Gf2 { one: bits & 1 != 0 },
            Gf2 { one: bits & 2 != 0 },
            Gf2 { one: bits & 4 != 0 },
        ];
        let mut x = b.clone();
        ldl_lsolve(&l_colptr, &l_indices, &l_data, &mut x);
        ldl_dsolve(&diag, &mut x);
        ldl_ltsolve(&l_colptr, &l_indices, &l_data, &mut x);
        for i in 0..3 {
            let mut sum = O;
            for k in 0..3 {
                sum = sum + a[i][k] * x[k];
            }
            assert_eq!(sum, b[i]);
        }
    }
}

#[test]
fn singular_over_gf2() {
    // [[1, 1], [1, 1]]
    let mat = CsMat::from_vecs(2, vec![0, 2, 4], vec![0, 1, 0, 1], vec![I, I, I, I]).unwrap();
    assert!(matches!(factorize(&mat), Err(LdlError::SingularPivot)));
    // [[1, 1, 0], [1, 0, 1], [0, 1, 1]]: the rows add up to nothing
    let mat = CsMat::from_vecs(3, vec![0, 2, 4, 6], vec![0, 1, 0, 2, 1, 2], vec![I, I, I, I, I, I])
        .unwrap();
    assert!(matches!(factorize(&mat), Err(LdlError::SingularPivot)));
}
