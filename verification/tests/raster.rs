use rustvision::color::Color;
use rustvision::geometry::vec::{Vec2, Vec2i};
use rustvision::image::Image;
use rustvision::shapes::{Line, Polygon, Rectangle, Shape};

const INK: Color = Color { r: 200, g: 100, b: 50 };

fn drawn(img: &Image) -> Vec<(usize, usize)> {
    let mut pixels = Vec::new();
    for y in 0..img.rows() {
        for x in 0..img.cols() {
            if img.get(x, y) != Some(Color::default()) {
                assert_eq!(img.get(x, y), Some(INK));
                pixels.push((x, y));
            }
        }
    }
    pixels
}

fn line_on(cols: usize, rows: usize, from: (i64, i64), to: (i64, i64)) -> Vec<(usize, usize)> {
    let mut img = Image::new(cols, rows);
    let line = Line::new(Vec2::new(from.0, from.1), Vec2::new(to.0, to.1)).with_color(INK);
    img.draw(&line);
    drawn(&img)
}

/// The even-odd rule, counted side by side in exact arithmetic.
fn inside(points: &[Vec2i], x: i64, y: i64) -> bool {
    let n = points.len();
    let mut crossings = 0;
    for j in 0..n {
        let current = points[j];
        let prev = points[if j > 0 { j - 1 } else { n - 1 }];
        let next = points[if j < n - 1 { j + 1 } else { 0 }];
        for other in [prev, next] {
            if current.y < other.y && 0 <= current.y && current.y <= y && y < other.y {
                let rise = other.y as i128 - current.y as i128;
                let run = other.x as i128 - current.x as i128;
                if current.x as i128 * rise + (y - current.y) as i128 * run <= x as i128 * rise {
                    crossings += 1;
                }
            }
        }
    }
    crossings % 2 == 1
}

fn check_fill(cols: usize, rows: usize, points: Vec<Vec2i>) -> usize {
    let mut polygon = Polygon::from_points(points.clone());
    polygon.set_color(INK);
    let mut img = Image::new(cols, rows);
    polygon.fill(&mut img);
    let mut count = 0;
    for y in 0..rows {
        for x in 0..cols {
            let expected = inside(&points, x as i64, y as i64);
            assert_eq!(
                img.get(x, y) == Some(INK),
                expected,
                "pixel ({}, {}) of {:?}",
                x,
                y,
                points
            );
            if expected {
                count += 1;
            }
        }
    }
    count
}

#[test]
fn set_then_get() {
    let mut img = Image::new(5, 4);
    img.set(3, 2, &INK);
    assert_eq!(img.get(3, 2), Some(INK));
    assert_eq!(drawn(&img), vec![(3, 2)]);
    for (x, y) in [(5, 0), (0, 4), (5, 4), (usize::MAX, 1), (1, usize::MAX)] {
        assert_eq!(img.get(x, y), None);
        img.set(x, y, &Color::splat(1));
        assert_eq!(drawn(&img), vec![(3, 2)]);
    }
    assert_eq!(img.at(Vec2::new(3, 2)), Some(INK));
    assert_eq!(img.at(Vec2::new(-1, 2)), None);
    assert_eq!(img.at(Vec2::new(3, -1)), None);
    assert_eq!(img.at(Vec2::new(i64::MIN, i64::MAX)), None);
}

#[test]
fn fill_then_get() {
    let mut img = Image::new(6, 3);
    img.set(1, 1, &Color::splat(3));
    img.fill_with(&INK);
    for y in 0..3 {
        for x in 0..6 {
            assert_eq!(img.get(x, y), Some(INK));
        }
    }
    assert_eq!((img.cols(), img.rows()), (6, 3));
}

#[test]
fn image_without_pixels() {
    for (cols, rows) in [(0, 0), (0, 4), (4, 0)] {
        let mut img = Image::new(cols, rows);
        assert_eq!((img.cols(), img.rows()), (cols, rows));
        assert_eq!(img.get(0, 0), None);
        img.set(0, 0, &INK);
        img.fill_with(&INK);
        assert_eq!(img.get(0, 0), None);
        let line = Line::new(Vec2::new(0, 0), Vec2::new(3, 3));
        img.draw(&line);
        let mut polygon = Polygon::from_points(vec![Vec2::new(0, 0), Vec2::new(0, 3), Vec2::new(3, 3)]);
        polygon.set_filled(true);
        img.draw(&polygon);
        assert_eq!((img.cols(), img.rows()), (cols, rows));
    }
}

#[test]
fn line_rounds_halves_towards_its_start() {
    assert_eq!(
        line_on(8, 8, (0, 0), (5, 2)),
        vec![(0, 0), (1, 0), (2, 1), (3, 1), (4, 2), (5, 2)]
    );
    // the tie after one step: each direction stays on the row of its start
    assert_eq!(line_on(8, 8, (0, 0), (2, 1)), vec![(0, 0), (1, 0), (2, 1)]);
    assert_eq!(line_on(8, 8, (2, 1), (0, 0)), vec![(0, 0), (1, 1), (2, 1)]);
}

#[test]
fn line_steps_along_its_longer_axis() {
    assert_eq!(
        line_on(8, 8, (1, 6), (3, 0)),
        vec![(3, 0), (3, 1), (2, 2), (2, 3), (2, 4), (1, 5), (1, 6)]
    );
    assert_eq!(
        line_on(4, 4, (3, 3), (0, 0)),
        vec![(0, 0), (1, 1), (2, 2), (3, 3)]
    );
    assert_eq!(line_on(4, 4, (2, 0), (2, 3)), vec![(2, 0), (2, 1), (2, 2), (2, 3)]);
}

#[test]
fn line_of_one_pixel() {
    assert_eq!(line_on(4, 4, (2, 1), (2, 1)), vec![(2, 1)]);
    assert_eq!(line_on(4, 4, (7, 1), (7, 1)), vec![]);
}

#[test]
fn line_is_clipped() {
    assert_eq!(line_on(3, 3, (-2, 1), (5, 1)), vec![(0, 1), (1, 1), (2, 1)]);
    assert_eq!(line_on(3, 3, (-3, -3), (4, 4)), vec![(0, 0), (1, 1), (2, 2)]);
    assert_eq!(line_on(3, 3, (-5, 0), (-1, 2)), vec![]);
    assert_eq!(line_on(2, 2, (1, -40), (1, 40)), vec![(1, 0), (1, 1)]);
}

#[test]
fn line_without_tie_is_symmetric() {
    for (from, to) in [
        ((0, 0), (7, 3)),
        ((0, 0), (9, 0)),
        ((1, 8), (6, 1)),
        ((9, 9), (0, 0)),
        ((0, 5), (9, 2)),
        ((4, 0), (3, 9)),
        ((0, 0), (4, 4)),
        ((-3, 2), (12, 7)),
    ] {
        assert_eq!(line_on(10, 10, from, to), line_on(10, 10, to, from), "{:?} {:?}", from, to);
    }
}

#[test]
fn polygon_fill_follows_the_even_odd_rule() {
    // a star that crosses itself
    let star = vec![
        Vec2::new(2, 25),
        Vec2::new(5, 35),
        Vec2::new(8, 28),
        Vec2::new(11, 35),
        Vec2::new(14, 25),
        Vec2::new(11, 30),
        Vec2::new(8, 25),
        Vec2::new(5, 30),
    ];
    assert!(check_fill(20, 40, star) > 0);
    let pentagram = vec![
        Vec2::new(10, 0),
        Vec2::new(16, 19),
        Vec2::new(0, 7),
        Vec2::new(20, 7),
        Vec2::new(4, 19),
    ];
    assert!(check_fill(24, 24, pentagram.clone()) > 0);
    // the middle of the pentagram is crossed twice: it stays empty
    assert!(!inside(&pentagram, 10, 10));
    assert!(inside(&pentagram, 10, 3));
    let square = vec![Vec2::new(20, 4), Vec2::new(20, 10), Vec2::new(30, 10), Vec2::new(30, 4)];
    assert_eq!(check_fill(40, 12, square), 60);
    let slanted = vec![Vec2::new(0, 0), Vec2::new(7, 3), Vec2::new(3, 11), Vec2::new(-4, 5)];
    assert!(check_fill(12, 12, slanted) > 0);
}

#[test]
fn polygon_partly_off_the_image() {
    let right = vec![Vec2::new(5, 1), Vec2::new(30, 4), Vec2::new(5, 7)];
    assert!(check_fill(10, 10, right) > 0);
    let below = vec![Vec2::new(1, 5), Vec2::new(8, 5), Vec2::new(4, 40)];
    assert!(check_fill(10, 10, below) > 0);
    let left = vec![Vec2::new(-6, 1), Vec2::new(8, 4), Vec2::new(-6, 9)];
    assert!(check_fill(10, 10, left) > 0);
    // edges that start above the first scan line are not taken
    let above = vec![Vec2::new(2, -3), Vec2::new(8, -3), Vec2::new(8, 6), Vec2::new(2, 6)];
    assert_eq!(check_fill(10, 10, above), 0);
    let far = vec![
        Vec2::new(i64::MIN, 0),
        Vec2::new(i64::MAX, 3),
        Vec2::new(i64::MAX, i64::MAX),
        Vec2::new(i64::MIN, i64::MAX),
    ];
    assert!(check_fill(6, 6, far) > 0);
}

#[test]
fn polygon_with_too_few_points_has_no_inside() {
    assert_eq!(check_fill(8, 8, vec![]), 0);
    assert_eq!(check_fill(8, 8, vec![Vec2::new(3, 3)]), 0);
    assert_eq!(check_fill(8, 8, vec![Vec2::new(1, 1), Vec2::new(6, 5)]), 0);
    let mut polygon = Polygon::from_points(vec![Vec2::new(1, 1), Vec2::new(3, 1)]);
    polygon.set_color(INK);
    polygon.set_filled(true);
    let mut img = Image::new(5, 3);
    img.draw(&polygon);
    assert_eq!(drawn(&img), vec![(1, 1), (2, 1), (3, 1)]);
    let mut img = Image::new(5, 3);
    Polygon::default().draw(&mut img);
    assert_eq!(drawn(&img), vec![]);
}

#[test]
fn polygon_outline_closes_the_loop() {
    let mut polygon = Polygon::from_points(vec![Vec2::new(0, 0), Vec2::new(3, 0), Vec2::new(3, 2)]);
    polygon.set_color(INK);
    let mut img = Image::new(4, 3);
    polygon.outline(&mut img);
    assert_eq!(
        drawn(&img),
        vec![(0, 0), (1, 0), (2, 0), (3, 0), (1, 1), (2, 1), (3, 1), (3, 2)]
    );
    let mut again = Image::new(4, 3);
    again.draw(&polygon);
    assert_eq!(drawn(&again), drawn(&img));
}

#[test]
fn rectangle_covers_its_pixels() {
    let mut img = Image::new(6, 5);
    img.draw(&Rectangle::new(Vec2::new(1, 2), 3, 2, INK));
    assert_eq!(
        drawn(&img),
        vec![(1, 2), (2, 2), (3, 2), (1, 3), (2, 3), (3, 3)]
    );
    let mut img = Image::new(6, 5);
    img.draw(&Rectangle::new(Vec2::new(4, 4), 1000, 1, INK.clone()));
    img.draw(&Rectangle::new(Vec2::new(0, 0), 0, 3, INK));
    img.draw(&Rectangle::default());
    assert_eq!(drawn(&img), vec![(4, 4), (5, 4)]);
}

#[test]
fn scene_of_all_shapes() {
    let mut img = Image::new(400, 400);

    let rect = Rectangle::new(Vec2::new(50, 40), 100, 70, Color::new(255, 0, 0));
    let line = Line::new(Vec2::new(200, 200), Vec2::new(250, 230)).with_color(Color::new(0, 0, 255));

    let star = vec![
        Vec2::new(20, 250),
        Vec2::new(50, 350),
        Vec2::new(80, 280),
        Vec2::new(110, 350),
        Vec2::new(140, 250),
        Vec2::new(110, 300),
        Vec2::new(80, 250),
        Vec2::new(50, 300),
    ];
    let mut polygon = Polygon::from_points(star.clone());
    polygon.set_color(Color::new(0, 255, 0));
    polygon.set_filled(true);

    let corners = vec![
        Vec2::new(200, 40),
        Vec2::new(200, 100),
        Vec2::new(300, 100),
        Vec2::new(300, 40),
    ];
    let mut quat = Polygon::from_points(corners.clone());
    quat.set_color(Color::new(0, 255, 0));
    quat.set_filled(true);

    img.draw(&rect);
    img.draw(&line);
    img.draw(&polygon);
    img.draw(&quat);

    assert_eq!(img.get(50, 40), Some(Color::new(255, 0, 0)));
    assert_eq!(img.get(149, 109), Some(Color::new(255, 0, 0)));
    assert_eq!(img.get(150, 109), Some(Color::default()));
    assert_eq!(img.get(200, 200), Some(Color::new(0, 0, 255)));
    assert_eq!(img.get(250, 230), Some(Color::new(0, 0, 255)));
    assert_eq!(img.get(225, 215), Some(Color::new(0, 0, 255)));
    for y in 0..400 {
        for x in 0..400 {
            if inside(&star, x, y) || inside(&corners, x, y) {
                assert_eq!(img.get(x as usize, y as usize), Some(Color::new(0, 255, 0)));
            }
        }
    }
    // the square is filled from its left to its right edge, on the rows
    // from its top edge to the one above its bottom edge
    assert!(inside(&corners, 200, 40) && inside(&corners, 299, 99));
    assert!(!inside(&corners, 300, 40) && !inside(&corners, 200, 100));
    assert_eq!(img.get(300, 100), Some(Color::new(0, 255, 0)));
    assert_eq!(img.get(301, 100), Some(Color::default()));
}

/// The pixels of a line, stepped with an integer error term.
fn stepped(from: (i64, i64), to: (i64, i64)) -> Vec<(i64, i64)> {
    let (x0, y0) = from;
    let (x1, y1) = to;
    let dx = (x1 - x0).abs();
    let dy = (y1 - y0).abs();
    let sx = (x1 - x0).signum();
    let sy = (y1 - y0).signum();
    let (mut x, mut y) = (x0, y0);
    let mut pixels = Vec::new();
    if dx >= dy {
        let mut e = 2 * dy - dx;
        while x != x1 || y != y1 {
            pixels.push((x, y));
            x += sx;
            if e <= 0 {
                e += 2 * dy;
            } else {
                y += sy;
                e += 2 * dy - 2 * dx;
            }
        }
    } else {
        let mut e = 2 * dx - dy;
        while x != x1 || y != y1 {
            pixels.push((x, y));
            y += sy;
            if e <= 0 {
                e += 2 * dx;
            } else {
                x += sx;
                e += 2 * dx - 2 * dy;
            }
        }
    }
    pixels.push((x, y));
    pixels
}

/// The pixels of a line by its rounding rule: after `i` steps along the
/// longer axis, the line has moved `i * minor / major` along the other,
/// rounded to the nearest integer, a half rounding down.
fn rounded(from: (i64, i64), to: (i64, i64)) -> Vec<(i64, i64)> {
    let dx = (to.0 - from.0).abs();
    let dy = (to.1 - from.1).abs();
    let sx = (to.0 - from.0).signum();
    let sy = (to.1 - from.1).signum();
    let (major, minor) = if dx >= dy { (dx, dy) } else { (dy, dx) };
    let mut pixels = Vec::new();
    for i in 0..=major {
        let k = if major == 0 { 0 } else { (2 * i * minor + major - 1).div_euclid(2 * major) };
        if dx >= dy {
            pixels.push((from.0 + sx * i, from.1 + sy * k));
        } else {
            pixels.push((from.0 + sx * k, from.1 + sy * i));
        }
    }
    pixels
}

#[test]
fn lines_between_all_pixels_of_a_grid() {
    for x0 in -1..8 {
        for y0 in -1..8 {
            for x1 in -1..8 {
                for y1 in -1..8 {
                    let (from, to) = ((x0, y0), (x1, y1));
                    let walk = stepped(from, to);
                    assert_eq!(walk, rounded(from, to));
                    let mut expected: Vec<(usize, usize)> = walk
                        .iter()
                        .filter(|p| 0 <= p.0 && p.0 < 7 && 0 <= p.1 && p.1 < 7)
                        .map(|p| (p.0 as usize, p.1 as usize))
                        .collect();
                    expected.sort_by_key(|p| (p.1, p.0));
                    expected.dedup();
                    assert_eq!(line_on(7, 7, from, to), expected, "{:?} {:?}", from, to);
                    let major = (x1 - x0).abs().max((y1 - y0).abs());
                    let minor = (x1 - x0).abs().min((y1 - y0).abs());
                    let tie = major > 0 && (0..=major).any(|i| (2 * i * minor + major) % (2 * major) == 0);
                    let mut back = stepped(to, from);
                    let mut forth = walk.clone();
                    back.sort();
                    forth.sort();
                    assert_eq!(forth == back, !tie, "{:?} {:?}", from, to);
                }
            }
        }
    }
}

#[test]
fn polygons_of_many_shapes() {
    let mut state: u64 = 0x2545_f491_4f6c_dd1d;
    let mut next = move |bound: u64| {
        state ^= state << 13;
        state ^= state >> 7;
        state ^= state << 17;
        state % bound
    };
    let mut filled = 0;
    for _ in 0..400 {
        let corners = 3 + next(6) as usize;
        let mut points = Vec::new();
        for _ in 0..corners {
            points.push(Vec2::new(next(31) as i64 - 5, next(31) as i64 - 5));
        }
        filled += check_fill(20, 20, points);
    }
    assert!(filled > 0);
}
