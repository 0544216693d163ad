use rustvision::color::Color;
use rustvision::geometry::vec::Vec2;
use rustvision::image::Image;

fn pixels(img: &Image) -> Vec<Vec<Color>> {
    let mut rows = Vec::new();
    for y in 0..img.rows() {
        let mut row = Vec::new();
        for x in 0..img.cols() {
            row.push(img.get(x, y).unwrap());
        }
        rows.push(row);
    }
    rows
}

#[test]
fn image_test_image_new() {
    let img = Image::new(42, 17);
    assert_eq!(img.cols(), 42);
    assert_eq!(img.rows(), 17);
    assert_eq!(pixels(&img), vec![vec![Color::splat(0); 42]; 17]);
}

#[test]
fn image_test_image_set() {
    let mut img = Image::new(42, 17);
    img.set(10, 10, &Color::new(42, 42, 17));
    let pixel = img.get(10, 10);
    assert_eq!(pixel, Some(Color::new(42, 42, 17)));
    let pixel = img.at(Vec2::splat(10));
    assert_eq!(pixel, Some(Color::new(42, 42, 17)));
}

#[test]
fn image_test_image_get_out_of_bounds() {
    let img = Image::new(42, 17);
    let pixel = img.get(100, 100);
    assert_eq!(pixel, None);
}

#[test]
fn image_test_image_at_out_of_bounds() {
    let img = Image::new(42, 17);
    let pixel = img.at(Vec2::splat(100));
    assert_eq!(pixel, None);
}

#[test]
fn image_test_image_fill() {
    let mut img = Image::new(42, 17);
    img.fill_with(&Color::new(17, 120, 42));
    assert_eq!(pixels(&img), vec![vec![Color::new(17, 120, 42); 42]; 17]);
}

#[test]
fn representation_test_image_new() {
    let img = Image::new(42, 17);
    assert_eq!(img.cols(), 42);
    assert_eq!(img.rows(), 17);
    assert_eq!(pixels(&img), vec![vec![Color::splat(0); 42]; 17]);
}

#[test]
fn representation_test_image_set() {
    let mut img = Image::new(42, 17);
    img.set(10, 10, &Color::new(42, 42, 17));
    let pixel = img.get(10, 10);
    assert_eq!(pixel, Some(Color::new(42, 42, 17)));
    let pixel = img.at(Vec2::splat(10));
    assert_eq!(pixel, Some(Color::new(42, 42, 17)));
}

#[test]
fn representation_test_image_get_out_of_bounds() {
    let img = Image::new(42, 17);
    let pixel = img.get(100, 100);
    assert_eq!(pixel, None);
}

#[test]
fn representation_test_image_at_out_of_bounds() {
    let img = Image::new(42, 17);
    let pixel = img.at(Vec2::splat(100));
    assert_eq!(pixel, None);
}

#[test]
fn representation_test_image_fill() {
    let mut img = Image::new(42, 17);
    img.fill_with(&Color::new(17, 120, 42));
    assert_eq!(pixels(&img), vec![vec![Color::new(17, 120, 42); 42]; 17]);
}
