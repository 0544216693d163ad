use rustvision::geometry::mat::{HomogeneousMatrix, Mat};
use rustvision::geometry::vec::Vec2i;

#[test]
fn test_mat_add_empty() {
    let a = Mat::<i32, 4, 4>::new();
    let b = Mat::<i32, 4, 4>::new();
    assert_eq!(a + b, Mat::<i32, 4, 4>::new());
}

#[test]
fn test_mat_add() {
    let a = Mat::from([[1, 2], [3, 4]]);
    let b = Mat::from([[2, 4], [6, 8]]);

    assert_eq!(a + b, Mat::from([[3, 6], [9, 12]]));
}

#[test]
fn test_mat_macro_empty() {
    let matrix: Mat<u64, 4, 4> = Mat::default();
    assert_eq!(matrix, Mat::from([[0; 4]; 4]));
}

#[test]
fn test_mat_macro() {
    let matrix = Mat::from([[1, 2], [3, 4]]);

    assert_eq!(
        matrix,
        Mat {
            matrix: [[1, 2], [3, 4]]
        }
    );
}

#[test]
fn test_mat_from() {
    assert_eq!(
        Mat::from([[1, 2], [3, 4]]),
        Mat {
            matrix: [[1, 2], [3, 4]]
        }
    )
}

#[test]
fn test_mat_mul() {
    let a = Mat::from([[1, 2, 3], [4, 5, 6]]);

    let b = Mat::from([[1, 2, 6], [3, 4, 2], [6, 7, 1]]);

    let result = a * b;
    assert_eq!(result, Mat::from([[25, 31, 13], [55, 70, 40]]))
}

#[test]
fn test_hom_matrix_from_vec2i() {
    assert_eq!(
        HomogeneousMatrix::from(Vec2i { x: 42, y: 17 }),
        HomogeneousMatrix::from([[42], [17], [1]])
    );
}

#[test]
fn mat_mul_changes_shape() {
    let row = Mat::from([[1i64, 2, 3]]);
    let column = Mat::from([[4i64], [5], [6]]);
    assert_eq!(row * column, Mat::from([[32]]));
    assert_eq!(
        column * row,
        Mat::from([[4, 8, 12], [5, 10, 15], [6, 12, 18]])
    );
}
