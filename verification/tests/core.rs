use mlp_core::matrix::Matrix;
use mlp_core::source::ConstSource;
use mlp_core::source::SeqSource;

fn bits(x: f32) -> u32 {
    x.to_bits()
}

#[test]
fn test_matrix_new_zero() {
    let matrix = Matrix::new_zero(2, 2);
    assert_eq!(matrix.rows, 2);
    assert_eq!(matrix.cols, 2);
    assert_eq!(matrix.data, vec![bits(0.0); 4]);
}

#[test]
fn test_matrix_new_random() {
    let mut g = ConstSource::new(bits(1.0));
    let matrix = Matrix::new_random(2, 2, &mut g);
    assert_eq!(matrix.rows, 2);
    assert_eq!(matrix.cols, 2);
    assert_eq!(matrix.data, vec![bits(1.0); 4]);
}

#[test]
fn test_matrix_mul() {
    let mut g1 = ConstSource::new(bits(2.0));
    let mut g2 = ConstSource::new(bits(3.0));
    let matrix1 = Matrix::new_random(2, 1, &mut g1);
    let matrix2 = Matrix::new_random(1, 2, &mut g2);
    let result = matrix1.mul(&matrix2);
    assert_eq!(result.rows, 2);
    assert_eq!(result.cols, 2);
    assert_eq!(result.data, vec![bits(6.0); 4]);
}

#[test]
fn test_matrix_new_wraps_data() {
    let m = Matrix::new(2, 3, vec![bits(1.0), bits(2.0), bits(3.0), bits(4.0), bits(5.0), bits(6.0)]);
    assert_eq!(m.rows, 2);
    assert_eq!(m.cols, 3);
    assert_eq!(f32::from_bits(m.data[5]), 6.0);
}

#[test]
fn test_matrix_add_exact() {
    let a = Matrix::new(1, 2, vec![bits(2.0), bits(-1.5)]);
    let b = Matrix::new(1, 2, vec![bits(3.0), bits(0.25)]);
    let r = a.add(&b);
    assert_eq!(r.rows, 1);
    assert_eq!(r.cols, 2);
    assert_eq!(r.data, vec![bits(5.0), bits(-1.25)]);
}

#[test]
fn test_matrix_mul_matches_naive() {
    // 2x3 times 3x2, cell by cell against a hand-run naive triple loop.
    let a = Matrix::new(2, 3, vec![bits(1.0), bits(2.0), bits(3.0), bits(4.0), bits(5.0), bits(6.0)]);
    let b = Matrix::new(3, 2, vec![bits(7.0), bits(8.0), bits(9.0), bits(10.0), bits(11.0), bits(12.0)]);
    let r = a.mul(&b);
    assert_eq!(r.rows, 2);
    assert_eq!(r.cols, 2);
    let expect = [58.0f32, 64.0, 139.0, 154.0];
    for (cell, want) in r.data.iter().zip(expect.iter()) {
        assert_eq!(f32::from_bits(*cell), *want);
    }
}

#[test]
fn test_matrix_zero_sized() {
    let m = Matrix::new_zero(0, 5);
    assert_eq!(m.rows, 0);
    assert_eq!(m.cols, 5);
    assert_eq!(m.data.len(), 0);
}

#[test]
fn test_seq_source_order() {
    let mut g = SeqSource::new(vec![bits(1.0), bits(2.0), bits(3.0), bits(4.0)]);
    let m = Matrix::new_random(2, 2, &mut g);
    // Row-major fill order: row 0 left to right, then row 1.
    assert_eq!(m.data, vec![bits(1.0), bits(2.0), bits(3.0), bits(4.0)]);
}
