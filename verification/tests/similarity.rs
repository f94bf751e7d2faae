use aiterm::sim::{cos_sim, dot, isqrt, SCALE};

#[test]
fn identical_vector_scores_one() {
    let a: Vec<i64> = vec![3, 4];
    assert_eq!(cos_sim(&a, &a), SCALE as i128);
}

#[test]
fn orthogonal_unit_vectors_score_zero() {
    let a: Vec<i64> = vec![1, 0];
    let b: Vec<i64> = vec![0, 1];
    assert_eq!(cos_sim(&a, &b), 0);
}

#[test]
fn zero_vector_scores_zero() {
    let z: Vec<i64> = vec![0, 0];
    let b: Vec<i64> = vec![5, 7];
    assert_eq!(cos_sim(&z, &b), 0);
    assert_eq!(cos_sim(&b, &z), 0);
    assert_eq!(cos_sim(&z, &z), 0);
}

#[test]
fn similarity_is_symmetric() {
    let a: Vec<i64> = vec![1, 2];
    let b: Vec<i64> = vec![3, 4];
    assert_eq!(cos_sim(&a, &b), cos_sim(&b, &a));
    // exact value: dot 11, norms isqrt(5)=2 and isqrt(25)=5
    assert_eq!(cos_sim(&a, &b), (11 * SCALE as i128) / 10);
}

#[test]
fn opposite_vectors_score_minus_one() {
    let a: Vec<i64> = vec![1, 0];
    let b: Vec<i64> = vec![-1, 0];
    assert_eq!(cos_sim(&a, &b), -(SCALE as i128));
}

#[test]
fn dot_product_exact() {
    let a: Vec<i64> = vec![1, 2, 3];
    let b: Vec<i64> = vec![4, 5, 6];
    assert_eq!(dot(&a, &b), 32);
}

#[test]
fn integer_square_root() {
    assert_eq!(isqrt(0), 0);
    assert_eq!(isqrt(1), 1);
    assert_eq!(isqrt(24), 4);
    assert_eq!(isqrt(25), 5);
    assert_eq!(isqrt(26), 5);
}
