use rustvision::color::Color;
use rustvision::geometry::vec::Vec2;
use rustvision::image::Image;
use rustvision::shapes::{Line, Polygon, Rectangle};

fn dump(img: &Image) -> Vec<String> {
    let mut out = Vec::new();
    for y in 0..img.rows() {
        let mut row = String::new();
        for x in 0..img.cols() {
            row.push(if img.get(x, y) == Some(Color::default()) { '.' } else { '#' });
        }
        out.push(row);
    }
    out
}

#[test]
fn horizontal_line_covers_its_row() {
    let mut img = Image::new(10, 10);
    let color = Color::new(0, 0, 255);
    let line = Line::new(Vec2::new(0, 0), Vec2::new(9, 0)).with_color(color);
    img.draw(&line);
    for y in 0..10 {
        for x in 0..10 {
            let expected = if y == 0 { color } else { Color::default() };
            assert_eq!(img.get(x, y), Some(expected));
        }
    }
}

#[test]
fn triangle_fill_and_outline() {
    let red = Color::new(255, 0, 0);
    let mut polygon = Polygon::from_points(vec![Vec2::new(2, 0), Vec2::new(2, 4), Vec2::new(6, 4)]);
    polygon.set_color(red);
    let mut img = Image::new(10, 10);
    polygon.fill(&mut img);
    println!("{}", dump(&img).join("\n"));
    assert_eq!(
        dump(&img),
        vec![
            "..........",
            "..#.......",
            "..##......",
            "..###.....",
            "..........",
            "..........",
            "..........",
            "..........",
            "..........",
            "..........",
        ]
    );
    polygon.set_filled(true);
    let mut img = Image::new(10, 10);
    img.draw(&polygon);
    println!("{}", dump(&img).join("\n"));
    assert_eq!(
        dump(&img),
        vec![
            "..#.......",
            "..##......",
            "..###.....",
            "..####....",
            "..#####...",
            "..........",
            "..........",
            "..........",
            "..........",
            "..........",
        ]
    );
}

#[test]
fn rectangle_is_clipped() {
    let mut img = Image::new(4, 3);
    let rect = Rectangle::new(Vec2::new(-1, 1), 3, 5, Color::splat(9));
    img.draw(&rect);
    assert_eq!(dump(&img), vec!["....", "##..", "##.."]);
}

#[test]
fn test_line_new() {
    let start = Vec2::new(10, 20);
    let end = Vec2::new(15, 10);
    assert_eq!(
        Line::new(start, end),
        Line {
            start,
            end,
            color: Color::default()
        }
    );
}

#[test]
fn test_line_with_color() {
    let start = Vec2::new(10, 20);
    let end = Vec2::new(15, 10);
    let color = Color::new(255, 42, 17);
    assert_eq!(
        Line::new(start, end).with_color(color),
        Line { start, end, color }
    );
}

#[test]
fn test_polygon_from() {
    let vecs = vec![Vec2::new(2, 10), Vec2::new(10, 15), Vec2::new(16, 20)];
    assert_eq!(
        Polygon::from_points(vecs.clone()),
        Polygon {
            points: vecs,
            filled: false,
            color: Color::default()
        }
    )
}

#[test]
fn test_set_filled() {
    let mut polygon = Polygon::default();

    polygon.set_filled(true);
    assert!(polygon.filled);

    polygon.set_filled(false);
    assert!(!polygon.filled);
}

#[test]
fn test_set_color() {
    let mut polygon = Polygon::default();
    let color = Color::new(17, 42, 137);

    polygon.set_color(color);
    assert_eq!(polygon.color, color);
}
