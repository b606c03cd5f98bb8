use sliding_puzzle::{Matrix2D, Vec2};

#[test]
fn test_eq() {
    let a = Matrix2D::fill(Vec2::new(3, 3), 5i8);
    let b = Matrix2D::fill(Vec2::new(3, 3), 5i8);

    assert_eq!(a, b);
}

#[test]
fn test_ne() {
    let a = Matrix2D::fill(Vec2::new(3, 3), 2i8);
    let b = Matrix2D::fill(Vec2::new(3, 3), 5i8);

    assert_ne!(a, b);
}

#[test]
fn test_get() {
    let size = Vec2::new(3, 3);
    let mut v: Vec<i8> = vec![];
    for i in 0..9 {
        v.push(i);
    }
    let mat = Matrix2D::from_vec(size, v).unwrap();

    for y in 0..3i8 {
        for x in 0..3i8 {
            assert_eq!(Some(&(y * 3 + x)), mat.get(Vec2::new(x, y)));
        }
    }
}

#[test]
fn test_get_out_of_range() {
    let mat = Matrix2D::fill(Vec2::new(2, 2), 7i8);

    assert_eq!(mat.get(Vec2::new(3, 1)), None);
    assert_eq!(mat.get(Vec2::new(1, 3)), None);
    assert_eq!(mat.get(Vec2::new(3, 3)), None);
}
