//! Lines in 2D.

use vstd::prelude::*;
use vstd::assert_by_contradiction;
use vstd::arithmetic::div_mod::lemma_fundamental_div_mod_converse;
use crate::canvas::Canvas;
use crate::color::Color;
use crate::geometry::vec::Vec2i;
use crate::image::Image;
use super::Shape;

verus! {

/// The distance between two coordinates.
pub open spec fn span(from: int, to: int) -> int {
    if from <= to {
        to - from
    } else {
        from - to
    }
}

/// The coordinate `n` steps away from `from` in the direction of `to`.
pub open spec fn toward(from: int, to: int, n: int) -> int {
    if from <= to {
        from + n
    } else {
        from - n
    }
}

/// How far a digital line has moved along its minor axis once it has taken
/// `i` steps along its major axis: `i * minor / major` rounded to the nearest
/// integer, a half rounding down.
pub open spec fn minor_offset(i: int, major: int, minor: int) -> int {
    if major <= 0 {
        0
    } else {
        (2 * i * minor + major - 1) / (2 * major)
    }
}

/// The number of steps a line takes from its start to its end: the longer of
/// its horizontal and vertical extent.
pub open spec fn line_steps(start: Vec2i, end: Vec2i) -> int {
    let dx = span(start.x as int, end.x as int);
    let dy = span(start.y as int, end.y as int);
    if dx >= dy {
        dx
    } else {
        dy
    }
}

/// The pixel a line visits after `i` steps. The line steps along x where its
/// horizontal extent is at least its vertical extent, and along y otherwise.
pub open spec fn line_point(start: Vec2i, end: Vec2i, i: int) -> (int, int) {
    let dx = span(start.x as int, end.x as int);
    let dy = span(start.y as int, end.y as int);
    if dx >= dy {
        (
            toward(start.x as int, end.x as int, i),
            toward(start.y as int, end.y as int, minor_offset(i, dx, dy)),
        )
    } else {
        (
            toward(start.x as int, end.x as int, minor_offset(i, dy, dx)),
            toward(start.y as int, end.y as int, i),
        )
    }
}

/// The pixels of the digital line from `start` to `end`, both ends included.
pub open spec fn line_pixels(start: Vec2i, end: Vec2i) -> Set<(int, int)> {
    Set::new(
        |p: (int, int)|
            exists|i: int| 0 <= i <= line_steps(start, end) && p == #[trigger] line_point(start, end, i),
    )
}

/// The pixels a line visits in its first `n` steps.
spec fn line_prefix(start: Vec2i, end: Vec2i, n: int) -> Set<(int, int)> {
    Set::new(|p: (int, int)| exists|i: int| 0 <= i < n && p == #[trigger] line_point(start, end, i))
}

proof fn lemma_prefix_grows(start: Vec2i, end: Vec2i, n: int)
    requires
        0 <= n,
    ensures
        line_prefix(start, end, n + 1) == line_prefix(start, end, n).insert(
            line_point(start, end, n),
        ),
{
    let grown = line_prefix(start, end, n + 1);
    let added = line_prefix(start, end, n).insert(line_point(start, end, n));
    assert forall|p: (int, int)| grown.contains(p) <==> added.contains(p) by {
        if grown.contains(p) {
            let i = choose|i: int| 0 <= i < n + 1 && p == #[trigger] line_point(start, end, i);
            if i < n {
                assert(line_prefix(start, end, n).contains(p));
            }
        }
        if added.contains(p) {
            if p == line_point(start, end, n) {
                assert(0 <= n < n + 1);
            } else {
                let i = choose|i: int| 0 <= i < n && p == #[trigger] line_point(start, end, i);
                assert(0 <= i < n + 1);
            }
        }
    }
    assert(grown =~= added);
}

/// The rounding rule of `minor_offset`, said without a division: `k` is the
/// offset after `i` steps exactly when the remainder `r` is in range.
proof fn lemma_offset_from_remainder(i: int, major: int, minor: int, k: int, r: int)
    requires
        major > 0,
        0 <= r < 2 * major,
        2 * i * minor + major - 1 == 2 * major * k + r,
    ensures
        minor_offset(i, major, minor) == k,
{
    assert(2 * major * k == k * (2 * major)) by (nonlinear_arith);
    lemma_fundamental_div_mod_converse(2 * i * minor + major - 1, 2 * major, k, r);
}

/// The shorter of a line's horizontal and vertical extent.
pub open spec fn line_minor(start: Vec2i, end: Vec2i) -> int {
    let dx = span(start.x as int, end.x as int);
    let dy = span(start.y as int, end.y as int);
    if dx >= dy {
        dy
    } else {
        dx
    }
}

/// Whether, after `i` steps, the ideal line passes exactly halfway between
/// two pixels, so that rounding has to pick one of them.
pub open spec fn tie_at(start: Vec2i, end: Vec2i, i: int) -> bool {
    let major = line_steps(start, end);
    major > 0 && (2 * i * line_minor(start, end) + major) % (2 * major) == 0
}

/// Whether the line has a tie at one of its steps.
pub open spec fn has_tie(start: Vec2i, end: Vec2i) -> bool {
    exists|i: int| 0 <= i <= line_steps(start, end) && #[trigger] tie_at(start, end, i)
}

/// Walking back `major - n` steps from the far end arrives where walking `n`
/// steps from the near end does.
proof fn lemma_toward_reversed(from: int, to: int, n: int)
    requires
        from == to ==> n == 0,
    ensures
        toward(to, from, span(from, to) - n) == toward(from, to, n),
{
}

/// Without a tie, the offsets seen from the two ends add up to `minor`; with
/// one, both ends round towards themselves and the offsets fall one short.
proof fn lemma_offsets_meet(i: int, major: int, minor: int)
    requires
        major > 0,
    ensures
        minor_offset(i, major, minor) + minor_offset(major - i, major, minor) == if (2 * i
            * minor + major) % (2 * major) == 0 {
            minor - 1
        } else {
            minor
        },
{
    let n = 2 * i * minor + major - 1;
    let d = 2 * major;
    let k = n / d;
    let r = n % d;
    vstd::arithmetic::div_mod::lemma_fundamental_div_mod(n, d);
    vstd::arithmetic::div_mod::lemma_mod_bound(n, d);
    assert(d * k == k * d) by (nonlinear_arith);
    let back = 2 * (major - i) * minor + major - 1;
    assert(2 * (major - i) * minor == 2 * major * minor - 2 * i * minor) by (nonlinear_arith);
    if r == d - 1 {
        assert(n + 1 == (k + 1) * d + 0) by (nonlinear_arith)
            requires
                n == d * k + r,
                r == d - 1,
        ;
        lemma_fundamental_div_mod_converse(n + 1, d, k + 1, 0);
        assert(back == (minor - k - 1) * d + (d - 1)) by (nonlinear_arith)
            requires
                back == 2 * major * minor - 2 * i * minor + major - 1,
                n == 2 * i * minor + major - 1,
                n == d * k + r,
                r == d - 1,
                d == 2 * major,
        ;
        lemma_fundamental_div_mod_converse(back, d, minor - k - 1, d - 1);
    } else {
        assert(n + 1 == k * d + (r + 1)) by (nonlinear_arith)
            requires
                n == d * k + r,
        ;
        lemma_fundamental_div_mod_converse(n + 1, d, k, r + 1);
        assert(back == (minor - k) * d + (d - 2 - r)) by (nonlinear_arith)
            requires
                back == 2 * major * minor - 2 * i * minor + major - 1,
                n == 2 * i * minor + major - 1,
                n == d * k + r,
                d == 2 * major,
        ;
        lemma_fundamental_div_mod_converse(back, d, minor - k, d - 2 - r);
    }
}

/// Where the line has no tie at step `i`, the walk from the other end visits
/// the same pixel, `i` steps before it arrives.
proof fn lemma_point_reversed(start: Vec2i, end: Vec2i, i: int)
    requires
        0 <= i <= line_steps(start, end),
        !tie_at(start, end, i),
    ensures
        line_point(end, start, line_steps(start, end) - i) == line_point(start, end, i),
{
    let dx = span(start.x as int, end.x as int);
    let dy = span(start.y as int, end.y as int);
    let major = line_steps(start, end);
    let minor = line_minor(start, end);
    if major > 0 {
        lemma_offsets_meet(i, major, minor);
        if minor == 0 {
            assert(2 * i * minor == 0) by (nonlinear_arith)
                requires
                    minor == 0,
            ;
            lemma_fundamental_div_mod_converse(major - 1, 2 * major, 0, major - 1);
        }
    }
    if dx >= dy {
        lemma_toward_reversed(start.x as int, end.x as int, i);
        lemma_toward_reversed(start.y as int, end.y as int, minor_offset(i, dx, dy));
    } else {
        lemma_toward_reversed(start.y as int, end.y as int, i);
        lemma_toward_reversed(start.x as int, end.x as int, minor_offset(i, dy, dx));
    }
}

/// A line without a tie covers the same pixels whichever end it is drawn
/// from.
///
/// A line with a tie does not: at the tie each direction rounds towards its
/// own start, so the two walks pass on different sides of the halfway point.
/// The line from (0, 0) to (2, 1) visits (1, 0), the line from (2, 1) to
/// (0, 0) visits (1, 1) instead.
pub proof fn lemma_line_symmetry(start: Vec2i, end: Vec2i)
    requires
        !has_tie(start, end),
    ensures
        line_pixels(start, end) == line_pixels(end, start),
{
    let forth = line_pixels(start, end);
    let back = line_pixels(end, start);
    let major = line_steps(start, end);
    assert(line_steps(end, start) == major);
    assert forall|p: (int, int)| forth.contains(p) <==> back.contains(p) by {
        if forth.contains(p) {
            let i = choose|i: int| 0 <= i <= major && p == #[trigger] line_point(start, end, i);
            assert(!tie_at(start, end, i));
            lemma_point_reversed(start, end, i);
            assert(0 <= major - i <= major && p == line_point(end, start, major - i));
        }
        if back.contains(p) {
            let j = choose|j: int| 0 <= j <= major && p == #[trigger] line_point(end, start, j);
            assert(!tie_at(start, end, major - j));
            lemma_point_reversed(start, end, major - j);
            assert(0 <= major - j <= major && p == line_point(start, end, major - j));
        }
    }
    assert(forth =~= back);
}

/// A line with a tie covers other pixels when it is drawn from its other
/// end: the pixel that it visits at the tie is not visited on the way back.
pub proof fn lemma_tie_breaks_symmetry(start: Vec2i, end: Vec2i)
    requires
        has_tie(start, end),
    ensures
        line_pixels(start, end) != line_pixels(end, start),
{
    let major = line_steps(start, end);
    let minor = line_minor(start, end);
    let dx = span(start.x as int, end.x as int);
    let dy = span(start.y as int, end.y as int);
    let i = choose|i: int| 0 <= i <= major && #[trigger] tie_at(start, end, i);
    let p = line_point(start, end, i);
    assert(line_pixels(start, end).contains(p));
    assert(line_steps(end, start) == major);
    // a line along one axis has no tie
    if minor == 0 {
        assert(2 * i * minor == 0) by (nonlinear_arith)
            requires
                minor == 0,
        ;
        lemma_fundamental_div_mod_converse(major, 2 * major, 0, major);
    }
    lemma_offsets_meet(i, major, minor);
    assert_by_contradiction!(!line_pixels(end, start).contains(p), {
        let j = choose|j: int| 0 <= j <= major && p == #[trigger] line_point(end, start, j);
        // along the major axis the two walks meet only at `j == major - i`,
        // and there they differ along the minor axis
        assert(j == major - i);
    });
}

/// Drawing a line without a tie from either end yields the same picture.
pub proof fn lemma_line_symmetry_drawn(line: Line, canvas: Canvas)
    requires
        !has_tie(line.start, line.end),
    ensures
        line.rendered(canvas) == (Line {
            start: line.end,
            end: line.start,
            color: line.color,
        }).rendered(canvas),
{
    lemma_line_symmetry(line.start, line.end);
}

/// Struct for representing a line in 2D space with a given color.
#[derive(Debug, Clone, Copy, PartialEq)]
pub struct Line {
    pub start: Vec2i,
    pub end: Vec2i,
    pub color: Color,
}

impl Default for Line {
    /// The black line that starts and ends at the origin: a single pixel.
    fn default() -> (line: Self)
        ensures
            line.start.x == 0 && line.start.y == 0,
            line.end.x == 0 && line.end.y == 0,
            line.color == Color::black(),
    {
        Self { start: Vec2i { x: 0, y: 0 }, end: Vec2i { x: 0, y: 0 }, color: Color::default() }
    }
}

impl Line {
    /// Create a new, black line with given start and end point.
    pub fn new(start: Vec2i, end: Vec2i) -> (line: Self)
        ensures
            line.start == start,
            line.end == end,
            line.color == Color::black(),
    {
        Self { start, end, color: Color::default() }
    }

    /// Add a color to this line.
    pub fn with_color(self, color: Color) -> (line: Self)
        ensures
            line.start == self.start,
            line.end == self.end,
            line.color == color,
    {
        Self { start: self.start, end: self.end, color }
    }

    /// Walks from the start to the end along the major axis, `steep` telling
    /// that this axis is y, and writes every pixel on the way.
    fn trace(&self, img: &mut Image, steep: bool)
        requires
            old(img).wf(),
            steep <==> span(self.start.x as int, self.end.x as int) < span(
                self.start.y as int,
                self.end.y as int,
            ),
        ensures
            final(img).wf(),
            final(img)@ == old(img)@.paint(line_pixels(self.start, self.end), self.color),
    {
        let (a0, b0, a1, b1) = if steep {
            (self.start.y, self.start.x, self.end.y, self.end.x)
        } else {
            (self.start.x, self.start.y, self.end.x, self.end.y)
        };
        let major: i128 = if a0 <= a1 {
            a1 as i128 - a0 as i128
        } else {
            a0 as i128 - a1 as i128
        };
        let minor: i128 = if b0 <= b1 {
            b1 as i128 - b0 as i128
        } else {
            b0 as i128 - b1 as i128
        };
        let mut a: i64 = a0;
        let mut b: i64 = b0;
        let mut e: i128 = 2 * minor - major;
        let ghost mut i: int = 0;
        let ghost mut k: int = 0;
        proof {
            old(img)@.lemma_paint_nothing(self.color);
            assert(line_prefix(self.start, self.end, 0) =~= Set::<(int, int)>::empty());
            assert(2 * i * minor == 0 && 2 * major * k == 0) by (nonlinear_arith)
                requires
                    i == 0,
                    k == 0,
            ;
        }
        while a != a1 || b != b1
            invariant
                img.wf(),
                old(img).wf(),
                steep <==> span(self.start.x as int, self.end.x as int) < span(
                    self.start.y as int,
                    self.end.y as int,
                ),
                (a0, b0, a1, b1) == if steep {
                    (self.start.y, self.start.x, self.end.y, self.end.x)
                } else {
                    (self.start.x, self.start.y, self.end.x, self.end.y)
                },
                major == span(a0 as int, a1 as int),
                minor == span(b0 as int, b1 as int),
                minor <= major,
                0 <= i <= major,
                0 <= k <= minor,
                a == toward(a0 as int, a1 as int, i),
                b == toward(b0 as int, b1 as int, k),
                major > 0 ==> 0 <= e + 2 * major - 2 * minor - 1 < 2 * major,
                major > 0 ==> 2 * i * minor + major - 1 == 2 * major * k + (e + 2 * major - 2
                    * minor - 1),
                major == 0 ==> k == 0,
                img@ == old(img)@.paint(line_prefix(self.start, self.end, i), self.color),
            decreases major - i,
        {
            proof {
                assert_by_contradiction!(i < major, {
                    // the walk would have arrived: the remainder pins the
                    // offset to `minor`
                    assert(2 * major * minor - 2 * major * k == 2 * major * (minor - k))
                        by (nonlinear_arith);
                    assert(minor - k == 0) by (nonlinear_arith)
                        requires
                            major > 0,
                            0 <= (e + 2 * major - 2 * minor - 1) < 2 * major,
                            2 * major * (minor - k) + major - 1 == (e + 2 * major - 2 * minor
                                - 1),
                    ;
                });
                lemma_offset_from_remainder(i, major as int, minor as int, k, e + 2 * major - 2 * minor - 1);
                assert(line_point(self.start, self.end, i) == if steep {
                    (b as int, a as int)
                } else {
                    (a as int, b as int)
                });
                old(img)@.lemma_paint_then_set(
                    line_prefix(self.start, self.end, i),
                    if steep { b as int } else { a as int },
                    if steep { a as int } else { b as int },
                    self.color,
                );
                lemma_prefix_grows(self.start, self.end, i);
                assert(2 * (i + 1) * minor == 2 * i * minor + 2 * minor) by (nonlinear_arith);
                assert(2 * major * (k + 1) == 2 * major * k + 2 * major) by (nonlinear_arith);
            }
            if steep {
                img.plot(b as i128, a as i128, &self.color);
            } else {
                img.plot(a as i128, b as i128, &self.color);
            }
            if a0 <= a1 {
                a += 1;
            } else {
                a -= 1;
            }
            if e <= 0 {
                e += 2 * minor;
            } else {
                proof {
                    assert(k < minor) by (nonlinear_arith)
                        requires
                            major > 0,
                            0 <= i < major,
                            0 <= minor <= major,
                            e > 0,
                            2 * i * minor + major - 1 == 2 * major * k + (e + 2 * major - 2
                                * minor - 1),
                    ;
                }
                if b0 <= b1 {
                    b += 1;
                } else {
                    b -= 1;
                }
                e += 2 * minor - 2 * major;
                proof {
                    k = k + 1;
                }
            }
            proof {
                i = i + 1;
            }
        }
        proof {
            assert(i == major);
            if major > 0 {
                lemma_offset_from_remainder(i, major as int, minor as int, k, e + 2 * major - 2 * minor - 1);
            }
            assert(line_point(self.start, self.end, i) == if steep {
                (b as int, a as int)
            } else {
                (a as int, b as int)
            });
            old(img)@.lemma_paint_then_set(
                line_prefix(self.start, self.end, i),
                if steep { b as int } else { a as int },
                if steep { a as int } else { b as int },
                self.color,
            );
            lemma_prefix_grows(self.start, self.end, i);
            assert(line_prefix(self.start, self.end, i + 1) =~= line_pixels(self.start, self.end));
        }
        if steep {
            img.plot(b as i128, a as i128, &self.color);
        } else {
            img.plot(a as i128, b as i128, &self.color);
        }
    }
}

impl Shape for Line {
    /// A line paints the pixels of the digital line between its two ends.
    open spec fn rendered(&self, canvas: Canvas) -> Canvas {
        canvas.paint(line_pixels(self.start, self.end), self.color)
    }

    /// Draws the line with an integer error term: it steps along its longer
    /// axis, from its start to its end, and moves along the other axis
    /// whenever the error term has become positive.
    fn draw(&self, img: &mut Image)
        ensures
            final(img)@ == old(img)@.paint(line_pixels(self.start, self.end), self.color),
    {
        let dx: i128 = if self.start.x <= self.end.x {
            self.end.x as i128 - self.start.x as i128
        } else {
            self.start.x as i128 - self.end.x as i128
        };
        let dy: i128 = if self.start.y <= self.end.y {
            self.end.y as i128 - self.start.y as i128
        } else {
            self.start.y as i128 - self.end.y as i128
        };
        self.trace(img, dx < dy);
    }
}

} // verus!
