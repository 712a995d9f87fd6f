use pykrete_wb::mat::{MatGF2, VecGF2, GF2};

#[test]
fn gf2_math() {
    assert_eq!(GF2(false) + GF2(false), GF2(false));
    assert_eq!(GF2(false) + GF2(true), GF2(true));
    assert_eq!(GF2(true) + GF2(true), GF2(false));
    assert_eq!(GF2(true) * GF2(true), GF2(true));
    assert_eq!(GF2(false) * GF2(true), GF2(false));
}

#[test]
fn det_2x2() {
    let matrix = MatGF2::<2>::from_array([[true, false], [false, true]]);
    assert_eq!(matrix.determinant(), GF2(true));

    let matrix = MatGF2::<2>::from_array([[true, true], [true, true]]);
    assert_eq!(matrix.determinant(), GF2(false));
}

#[test]
fn det_3x3() {
    let matrix = MatGF2::<3>::from_array([[true, false, false], [false, true, false], [false, false, true]]);
    assert_eq!(matrix.determinant(), GF2(true));
}

#[test]
fn det_const() {
    let matrix: MatGF2<2> = MatGF2::new();
    assert_eq!(matrix.determinant(), GF2(false));
}

#[test]
fn random_invertible() {
    let m = <MatGF2<32>>::random_invertible(&mut rand::rng());
    m.inverse().expect("invertible");
}

#[test]
fn mul_by_vec() {
    let matrix = MatGF2::<3>::from_array([[true, false, true], [false, true, false], [true, true, false]]);
    let vec = VecGF2::<3>::from_array([true, true, false]);
    let result = matrix * vec;

    assert_eq!(result.get(0), GF2(true));
    assert_eq!(result.get(1), GF2(true));
    assert_eq!(result.get(2), GF2(false));
}

#[test]
fn identity_vec() {
    let identity = MatGF2::<3>::from_array([[true, false, false], [false, true, false], [false, false, true]]);
    let vec = VecGF2::<3>::from_array([true, false, true]);
    let result = identity * vec;

    assert_eq!(result.get(0), vec.get(0));
    assert_eq!(result.get(1), vec.get(1));
    assert_eq!(result.get(2), vec.get(2));
}
