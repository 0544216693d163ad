use rustvision::color::Color;

#[test]
fn test_color_new() {
    assert_eq!(
        Color::new(10, 42, 128),
        Color {
            r: 10,
            g: 42,
            b: 128
        }
    );
}

#[test]
fn test_color_default() {
    assert_eq!(Color::default(), Color { r: 0, g: 0, b: 0 });
}

#[test]
fn test_color_splat() {
    assert_eq!(
        Color::splat(17),
        Color {
            r: 17,
            g: 17,
            b: 17
        }
    );
    assert_eq!(
        Color::splat(42),
        Color {
            r: 42,
            g: 42,
            b: 42
        }
    );
}

#[test]
fn test_macro_empty() {
    assert_eq!(Color::default(), Color { r: 0, g: 0, b: 0 });
}

#[test]
fn test_macro_splat() {
    assert_eq!(
        Color::splat(42),
        Color {
            r: 42,
            g: 42,
            b: 42
        }
    );
}

#[test]
fn test_macro_three_values() {
    assert_eq!(
        Color::new(17, 42, 128),
        Color {
            r: 17,
            g: 42,
            b: 128
        }
    );
}
