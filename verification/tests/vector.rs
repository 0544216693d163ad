use rustvision::geometry::vec::{Vec2, Vec2i};

#[test]
fn mod_test_vec_add() {
    assert_eq!(
        Vec2 { x: 1, y: 0 } + Vec2 { x: 2, y: 1 },
        Vec2 { x: 3, y: 1 }
    );
}

#[test]
fn mod_test_vec_sub() {
    assert_eq!(
        Vec2 { x: 1, y: 0 } - Vec2 { x: 2, y: 1 },
        Vec2 { x: -1, y: -1 }
    );
}

#[test]
fn mod_test_vec_scale() {
    assert_eq!(Vec2 { x: 2, y: 5 } * 3, Vec2 { x: 6, y: 15 });
}

#[test]
fn mod_test_vec_div() {
    assert_eq!(Vec2 { x: 2.0, y: 5.0 } / 2.0, Vec2 { x: 1.0, y: 2.5 });
}

#[test]
fn vec_test_vec_add() {
    assert_eq!(
        Vec2 { x: 1, y: 0 } + Vec2 { x: 2, y: 1 },
        Vec2 { x: 3, y: 1 }
    );
}

#[test]
fn vec_test_vec_sub() {
    assert_eq!(
        Vec2 { x: 1, y: 0 } - Vec2 { x: 2, y: 1 },
        Vec2 { x: -1, y: -1 }
    );
}

#[test]
fn vec_test_vec_scale() {
    assert_eq!(Vec2 { x: 2, y: 5 } * 3, Vec2 { x: 6, y: 15 });
}

#[test]
fn vec_test_vec_div() {
    assert_eq!(Vec2 { x: 2.0, y: 5.0 } / 2.0, Vec2 { x: 1.0, y: 2.5 });
}

#[test]
fn test_vec2_macro_empty() {
    assert_eq!(Vec2::default(), Vec2 { x: 0, y: 0 });
}

#[test]
fn test_vec2_macro_splat() {
    assert_eq!(Vec2::splat(42), Vec2 { x: 42, y: 42 });
}

#[test]
fn test_vec2_macro_double_args() {
    assert_eq!(Vec2::new(3, 4), Vec2 { x: 3, y: 4 });
}

#[test]
fn test_vec2i_macro_empty() {
    assert_eq!(Vec2::default(), Vec2i { x: 0, y: 0 });
}

#[test]
fn test_vec2i_macro_splat() {
    assert_eq!(Vec2::splat(3), Vec2i { x: 3, y: 3 });
}

#[test]
fn test_vec2i_macro_double_args() {
    assert_eq!(Vec2::new(3, 4), Vec2i { x: 3, y: 4 });
}

#[test]
fn vec2i_test_dot() {
    assert_eq!(Vec2i { x: -4, y: -9 }.dot(&Vec2i { x: -1, y: 2 }), -14);
}

#[test]
fn test_vec2d_macro_empty() {
    assert_eq!(Vec2::default(), Vec2::<f64> { x: 0.0, y: 0.0 });
}

#[test]
fn test_vec2d_macro_splat() {
    assert_eq!(Vec2::splat(3.0), Vec2::<f64> { x: 3.0, y: 3.0 });
}

#[test]
fn test_vec2d_macro_double_args() {
    assert_eq!(Vec2::new(3.0, 4.0), Vec2::<f64> { x: 3.0, y: 4.0 });
}

#[test]
fn vec2d_test_dot() {
    assert_eq!(
        Vec2::<f64> { x: -4.0, y: -9.0 }.dot(&Vec2::<f64> { x: -1.0, y: 2.0 }),
        -14.0
    );
}

#[test]
fn dot_of_integers() {
    assert_eq!(Vec2i { x: 3, y: 4 }.dot(&Vec2i { x: 3, y: 4 }), 25);
    assert_eq!(Vec2i { x: 0, y: 0 }.dot(&Vec2i { x: i64::MAX, y: i64::MIN }), 0);
    assert_eq!(Vec2 { x: 7u8, y: 9 }.dot(&Vec2 { x: 10, y: 20 }), 250);
}

#[test]
fn vector_arithmetic() {
    let a = Vec2i { x: 5, y: -7 };
    let b = Vec2i { x: -2, y: 3 };
    assert_eq!(a + b, Vec2i { x: 3, y: -4 });
    assert_eq!(a - b, Vec2i { x: 7, y: -10 });
    assert_eq!(a * -3, Vec2i { x: -15, y: 21 });
    assert_eq!(a / 2, Vec2i { x: 2, y: -3 });
    assert_eq!(Vec2::<u8>::default(), Vec2 { x: 0, y: 0 });
}
