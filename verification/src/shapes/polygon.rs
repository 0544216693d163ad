//! Module for working with polygons in 2D.

use vstd::prelude::*;
use crate::canvas::Canvas;
use crate::color::Color;
use crate::geometry::vec::Vec2i;
use crate::image::Image;
use super::line::{line_pixels, Line};
use super::scanline::{
    all_ready, carry_over, crossings_from_row, crossings_upto_row, fill_row, lemma_crossings_push,
    lemma_from_row_concat, lemma_sides_of_push, lemma_upto_row_all, lemma_upto_row_none,
    lemma_upto_row_step, row_inside, sides_of, sort_by_x, take_in, Edge,
};
use super::Shape;

verus! {

/// One side of a polygon, taken from the end with the smaller y to the end
/// with the larger y. A horizontal side is never taken.
pub struct Side {
    pub from: Vec2i,
    pub to: Vec2i,
}

impl Side {
    /// The number of scan lines the side climbs.
    pub open spec fn rise(self) -> int {
        self.to.y - self.from.y
    }

    /// How far the side moves in x over its whole rise.
    pub open spec fn run(self) -> int {
        self.to.x - self.from.x
    }

    /// Whether the side is crossed by scan line `y`: it starts on a scan line
    /// of the image, at `y` or above, and ends below `y`. The end itself is
    /// not part of the side.
    pub open spec fn spans(self, y: int) -> bool {
        0 <= self.from.y <= y < self.to.y
    }

    /// Whether the side crosses scan line `y` at pixel `x` or left of it. The
    /// crossing lies at `from.x + (y - from.y) * run / rise`, a fraction that
    /// is compared exactly.
    pub open spec fn reaches(self, x: int, y: int) -> bool {
        self.from.x * self.rise() + (y - self.from.y) * self.run() <= x * self.rise()
    }

    /// Whether the side changes the parity of pixel `x` on scan line `y`.
    pub open spec fn counts(self, x: int, y: int) -> bool {
        self.spans(y) && self.reaches(x, y)
    }
}

/// The number of sides that are crossed by scan line `y` at pixel `x` or left
/// of it.
pub open spec fn crossings(sides: Seq<Side>, x: int, y: int) -> nat
    decreases sides.len(),
{
    if sides.len() == 0 {
        0
    } else {
        crossings(sides.drop_last(), x, y) + if sides.last().counts(x, y) {
            1nat
        } else {
            0nat
        }
    }
}

/// The sides that vertex `j` of a polygon contributes: the side to the vertex
/// before it and the side to the vertex after it, each only where `j` is its
/// end with the strictly smaller y. The vertices form a closed loop.
pub open spec fn sides_at(points: Seq<Vec2i>, j: int) -> Seq<Side> {
    let current = points[j];
    let prev = points[if j > 0 { j - 1 } else { points.len() - 1 }];
    let next = points[if j < points.len() - 1 { j + 1 } else { 0 }];
    let back = if current.y < prev.y {
        seq![Side { from: current, to: prev }]
    } else {
        seq![]
    };
    let forth = if current.y < next.y {
        seq![Side { from: current, to: next }]
    } else {
        seq![]
    };
    back + forth
}

/// The sides contributed by the first `n` vertices.
pub open spec fn sides_upto(points: Seq<Vec2i>, n: int) -> Seq<Side>
    decreases n,
{
    if n <= 0 {
        seq![]
    } else {
        sides_upto(points, n - 1) + sides_at(points, n - 1)
    }
}

/// All sides of the polygon with the given vertices.
pub open spec fn polygon_sides(points: Seq<Vec2i>) -> Seq<Side> {
    sides_upto(points, points.len() as int)
}

/// Whether pixel `(x, y)` lies inside the polygon by the even-odd rule: an
/// odd number of sides is crossed by its scan line at `x` or left of it.
pub open spec fn inside(points: Seq<Vec2i>, x: int, y: int) -> bool {
    crossings(polygon_sides(points), x, y) % 2 == 1
}

/// The pixels inside the polygon with the given vertices.
pub open spec fn polygon_interior(points: Seq<Vec2i>) -> Set<(int, int)> {
    Set::new(|p: (int, int)| inside(points, p.0, p.1))
}

/// The pixels on the outline of the polygon: the digital lines from each
/// vertex to the next, and from the last back to the first.
pub open spec fn polygon_outline(points: Seq<Vec2i>) -> Set<(int, int)> {
    Set::new(
        |p: (int, int)|
            exists|i: int|
                0 <= i < points.len() && #[trigger] line_pixels(
                    points[i],
                    points[(i + 1) % (points.len() as int)],
                ).contains(p),
    )
}

/// Every side of a polygon climbs: a horizontal side is never taken, so the
/// inverse slope of a side always exists.
pub proof fn lemma_sides_climb(points: Seq<Vec2i>, n: int, k: int)
    requires
        0 <= n <= points.len(),
        0 <= k < sides_upto(points, n).len(),
    ensures
        sides_upto(points, n)[k].rise() > 0,
    decreases n,
{
    if n > 0 {
        if k < sides_upto(points, n - 1).len() {
            lemma_sides_climb(points, n - 1, k);
        }
    }
}

/// Every side of a polygon runs from one of its points to another.
pub proof fn lemma_sides_join_points(points: Seq<Vec2i>, n: int, k: int)
    requires
        0 <= n <= points.len(),
        0 <= k < sides_upto(points, n).len(),
    ensures
        points.contains(sides_upto(points, n)[k].from),
        points.contains(sides_upto(points, n)[k].to),
    decreases n,
{
    if n > 0 {
        if k < sides_upto(points, n - 1).len() {
            lemma_sides_join_points(points, n - 1, k);
        } else {
            let j = n - 1;
            assert(points[j] == points[j]);
            assert(points.contains(points[j]));
            assert(points.contains(points[if j > 0 { j - 1 } else { points.len() - 1 }]));
            assert(points.contains(points[if j < points.len() - 1 { j + 1 } else { 0 }]));
        }
    }
}

/// Where sides are crossed, one of them counts.
proof fn lemma_crossing_has_side(sides: Seq<Side>, x: int, y: int) -> (k: int)
    requires
        crossings(sides, x, y) > 0,
    ensures
        0 <= k < sides.len(),
        sides[k].counts(x, y),
    decreases sides.len(),
{
    if sides.last().counts(x, y) {
        sides.len() - 1
    } else {
        lemma_crossing_has_side(sides.drop_last(), x, y)
    }
}

/// The inside of a polygon lies on the scan lines between its points: a
/// pixel inside has a point of the polygon on its scan line or above, and
/// one below.
pub proof fn lemma_inside_between_points(points: Seq<Vec2i>, x: int, y: int)
    requires
        inside(points, x, y),
    ensures
        exists|i: int, j: int|
            0 <= i < points.len() && 0 <= j < points.len() && 0 <= (#[trigger] points[i]).y <= y < (
            #[trigger] points[j]).y,
{
    let sides = polygon_sides(points);
    let k = lemma_crossing_has_side(sides, x, y);
    lemma_sides_join_points(points, points.len() as int, k);
    let i = choose|i: int| 0 <= i < points.len() && points[i] == sides[k].from;
    let j = choose|j: int| 0 <= j < points.len() && points[j] == sides[k].to;
    assert(0 <= points[i].y <= y < points[j].y);
}

/// A polygon with fewer than three points has no inside: whatever side it
/// has, it has twice.
pub proof fn lemma_degenerate_polygon_is_hollow(points: Seq<Vec2i>, x: int, y: int)
    requires
        points.len() < 3,
    ensures
        !inside(points, x, y),
{
    reveal_with_fuel(sides_upto, 3);
    reveal_with_fuel(crossings, 3);
    if points.len() == 1 {
        assert(sides_at(points, 0) =~= Seq::<Side>::empty());
        assert(polygon_sides(points) =~= Seq::<Side>::empty());
    } else if points.len() == 2 {
        let first = points[0];
        let second = points[1];
        let twice = if first.y < second.y {
            seq![Side { from: first, to: second }, Side { from: first, to: second }]
        } else if second.y < first.y {
            seq![Side { from: second, to: first }, Side { from: second, to: first }]
        } else {
            seq![]
        };
        assert(polygon_sides(points) =~= twice);
        if twice.len() == 2 {
            assert(twice.drop_last() =~= seq![twice[0]]);
            assert(twice.drop_last().drop_last() =~= Seq::<Side>::empty());
        }
    }
}

/// The pixels inside the polygon on the scan lines above `y`.
spec fn interior_above(points: Seq<Vec2i>, y: int) -> Set<(int, int)> {
    Set::new(|p: (int, int)| p.1 < y && inside(points, p.0, p.1))
}

/// The pixels on the first `n` lines of the outline.
spec fn outline_upto(points: Seq<Vec2i>, n: int) -> Set<(int, int)> {
    Set::new(
        |p: (int, int)|
            exists|i: int|
                0 <= i < n && #[trigger] line_pixels(
                    points[i],
                    points[(i + 1) % (points.len() as int)],
                ).contains(p),
    )
}

/// A single side starts on a scan line where it starts there.
proof fn lemma_from_row_single(side: Side, row: int, x: int, y: int)
    ensures
        crossings_from_row(seq![side], row, x, y) == if side.from.y == row && side.counts(x, y) {
            1nat
        } else {
            0nat
        },
{
    assert(seq![side].drop_last() =~= Seq::<Side>::empty());
    assert(crossings_from_row(Seq::<Side>::empty(), row, x, y) == 0);
}

/// What the sides of one vertex add to the count of a scan line's starts.
proof fn lemma_from_row_vertex(points: Seq<Vec2i>, j: int, row: int, x: int, y: int)
    requires
        0 <= j < points.len(),
    ensures
        crossings_from_row(sides_upto(points, j + 1), row, x, y) == crossings_from_row(
            sides_upto(points, j),
            row,
            x,
            y,
        ) + crossings_from_row(sides_at(points, j), row, x, y),
        crossings_from_row(sides_at(points, j), row, x, y) == {
            let current = points[j];
            let prev = points[if j > 0 { j - 1 } else { points.len() - 1 }];
            let next = points[if j < points.len() - 1 { j + 1 } else { 0 }];
            let back = Side { from: current, to: prev };
            let forth = Side { from: current, to: next };
            (if current.y < prev.y && current.y == row && back.counts(x, y) {
                1nat
            } else {
                0nat
            }) + (if current.y < next.y && current.y == row && forth.counts(x, y) {
                1nat
            } else {
                0nat
            })
        },
{
    let current = points[j];
    let prev = points[if j > 0 { j - 1 } else { points.len() - 1 }];
    let next = points[if j < points.len() - 1 { j + 1 } else { 0 }];
    let back = if current.y < prev.y {
        seq![Side { from: current, to: prev }]
    } else {
        seq![]
    };
    let forth = if current.y < next.y {
        seq![Side { from: current, to: next }]
    } else {
        seq![]
    };
    assert(sides_at(points, j) == back + forth);
    lemma_from_row_concat(sides_upto(points, j), sides_at(points, j), row, x, y);
    lemma_from_row_concat(back, forth, row, x, y);
    lemma_from_row_single(Side { from: current, to: prev }, row, x, y);
    lemma_from_row_single(Side { from: current, to: next }, row, x, y);
    assert(crossings_from_row(Seq::<Side>::empty(), row, x, y) == 0);
}

/// Struct representing a polygon: the closed loop through its points, in
/// their order.
#[derive(Debug, Clone, PartialEq)]
pub struct Polygon {
    pub points: Vec<Vec2i>,
    pub filled: bool,
    pub color: Color,
}

impl Default for Polygon {
    /// The polygon without points: black and not filled.
    fn default() -> (polygon: Self)
        ensures
            polygon.points@ == Seq::<Vec2i>::empty(),
            !polygon.filled,
            polygon.color == Color::black(),
    {
        Self { points: Vec::new(), filled: false, color: Color::default() }
    }
}

impl Polygon {
    /// Create a new polygon with the specified points. It is black, and only
    /// its outline is drawn.
    pub fn from_points(points: Vec<Vec2i>) -> (polygon: Self)
        ensures
            polygon.points == points,
            !polygon.filled,
            polygon.color == Color::black(),
    {
        Self { points, filled: false, color: Color::default() }
    }

    /// Set the filled status of this polygon.
    pub fn set_filled(&mut self, filled: bool)
        ensures
            final(self).filled == filled,
            final(self).points == old(self).points,
            final(self).color == old(self).color,
    {
        self.filled = filled;
    }

    /// Set the color of this polygon.
    pub fn set_color(&mut self, color: Color)
        ensures
            final(self).color == color,
            final(self).points == old(self).points,
            final(self).filled == old(self).filled,
    {
        self.color = color;
    }

    /// Builds the edge table for an image of `rows` scan lines: for each scan
    /// line the edges that start on it, in the order of the vertices.
    fn edge_table(&self, rows: usize) -> (table: Vec<Vec<Edge>>)
        ensures
            table.len() == rows,
            forall|r: int| 0 <= r < rows ==> all_ready(#[trigger] table@[r]@, r),
            forall|r: int, x: int, y: int|
                0 <= r < rows ==> #[trigger] crossings(sides_of(table@[r]@), x, y)
                    == crossings_from_row(polygon_sides(self.points@), r, x, y),
    {
        let ghost points = self.points@;
        let mut table: Vec<Vec<Edge>> = Vec::new();
        let mut r: usize = 0;
        while r < rows
            invariant
                r <= rows,
                table.len() == r,
                forall|k: int| 0 <= k < r ==> (#[trigger] table@[k])@.len() == 0,
            decreases rows - r,
        {
            table.push(Vec::new());
            r += 1;
        }
        proof {
            assert forall|r: int, x: int, y: int| 0 <= r < rows implies #[trigger] crossings(
                sides_of(table@[r]@),
                x,
                y,
            ) == crossings_from_row(sides_upto(points, 0), r, x, y) by {
                assert(sides_of(table@[r]@) =~= Seq::<Side>::empty());
            }
        }
        let n = self.points.len();
        let mut j: usize = 0;
        while j < n
            invariant
                j <= n,
                n == self.points.len(),
                points == self.points@,
                table.len() == rows,
                forall|r: int| 0 <= r < rows ==> all_ready(#[trigger] table@[r]@, r),
                forall|r: int, x: int, y: int|
                    0 <= r < rows ==> #[trigger] crossings(sides_of(table@[r]@), x, y)
                        == crossings_from_row(sides_upto(points, j as int), r, x, y),
            decreases n - j,
        {
            let current = self.points[j];
            let ghost before = table@;
            if 0 <= current.y && (current.y as i128) < rows as i128 {
                // this vertex starts edges on its own scan line
                let row = current.y as usize;
                let prev = self.points[if j > 0 { j - 1 } else { n - 1 }];
                let next = self.points[if j < n - 1 { j + 1 } else { 0 }];
                // an edge is taken only from its end with the smaller y: this
                // takes every edge once and leaves horizontal edges out
                if current.y < prev.y {
                    let edge = Edge::from(&current, &prev);
                    proof {
                        lemma_sides_of_push(table@[row as int]@, edge);
                    }
                    table[row].push(edge);
                }
                let ghost between = table@;
                if current.y < next.y {
                    let edge = Edge::from(&current, &next);
                    proof {
                        lemma_sides_of_push(table@[row as int]@, edge);
                    }
                    table[row].push(edge);
                }
                proof {
                    assert forall|r: int, x: int, y: int| 0 <= r < rows implies #[trigger] crossings(
                        sides_of(table@[r]@),
                        x,
                        y,
                    ) == crossings_from_row(sides_upto(points, j + 1), r, x, y) by {
                        lemma_from_row_vertex(points, j as int, r, x, y);
                        assert(crossings(sides_of(before[r]@), x, y) == crossings_from_row(
                            sides_upto(points, j as int),
                            r,
                            x,
                            y,
                        ));
                        if r == row {
                            if current.y < prev.y {
                                lemma_crossings_push(
                                    sides_of(before[r]@),
                                    Side { from: current, to: prev },
                                    x,
                                    y,
                                );
                            }
                            if current.y < next.y {
                                lemma_crossings_push(
                                    sides_of(between[r]@),
                                    Side { from: current, to: next },
                                    x,
                                    y,
                                );
                            }
                        } else {
                            assert(table@[r] == before[r]);
                        }
                    }
                    assert forall|r: int| 0 <= r < rows implies all_ready(#[trigger] table@[r]@, r) by {
                        assert(all_ready(before[r]@, r));
                        if r != row {
                            assert(table@[r] == before[r]);
                        }
                    }
                }
            } else {
                proof {
                    assert forall|r: int, x: int, y: int| 0 <= r < rows implies #[trigger] crossings(
                        sides_of(table@[r]@),
                        x,
                        y,
                    ) == crossings_from_row(sides_upto(points, j + 1), r, x, y) by {
                        lemma_from_row_vertex(points, j as int, r, x, y);
                    }
                }
            }
            j += 1;
        }
        table
    }

    /// Fills the inside of the polygon, scan line by scan line, with an
    /// active-edge table. A pixel is inside by the even-odd rule; a polygon
    /// with fewer than three points has no inside. The outline is not part of
    /// the fill.
    pub fn fill(&self, img: &mut Image)
        requires
            old(img).wf(),
        ensures
            final(img).wf(),
            final(img)@ == old(img)@.paint(polygon_interior(self.points@), self.color),
    {
        let ghost points = self.points@;
        let ghost sides = polygon_sides(self.points@);
        let rows = img.rows();
        let table = self.edge_table(rows);
        let mut active: Vec<Edge> = Vec::new();
        let mut y: usize = 0;
        proof {
            old(img)@.lemma_paint_agrees(interior_above(points, 0), Set::empty(), self.color);
            old(img)@.lemma_paint_nothing(self.color);
            assert forall|x: int, yy: int| yy >= -1 implies #[trigger] crossings(
                sides_of(active@),
                x,
                yy,
            ) == crossings_upto_row(sides, -1, x, yy) by {
                lemma_upto_row_none(sides, -1, x, yy);
                assert(sides_of(active@) =~= Seq::<Side>::empty());
            }
        }
        while y < rows
            invariant
                img.wf(),
                old(img).wf(),
                rows == old(img)@.height,
                y <= rows,
                points == self.points@,
                sides == polygon_sides(points),
                table.len() == rows,
                forall|r: int| 0 <= r < rows ==> all_ready(#[trigger] table@[r]@, r),
                forall|r: int, x: int, yy: int|
                    0 <= r < rows ==> #[trigger] crossings(sides_of(table@[r]@), x, yy)
                        == crossings_from_row(sides, r, x, yy),
                all_ready(active@, y - 1),
                forall|x: int, yy: int|
                    yy >= y - 1 ==> #[trigger] crossings(sides_of(active@), x, yy)
                        == crossings_upto_row(sides, y - 1, x, yy),
                img@ == old(img)@.paint(interior_above(points, y as int), self.color),
            decreases rows - y,
        {
            let ghost left_over = active@;
            active = carry_over(&active, y);
            let ghost carried = active@;
            take_in(&mut active, &table[y], Ghost(y as int));
            let ghost joined = active@;
            sort_by_x(&mut active, Ghost(y as int));
            fill_row(img, &active, y, &self.color);
            proof {
                assert forall|x: int, yy: int| yy >= y implies #[trigger] crossings(
                    sides_of(active@),
                    x,
                    yy,
                ) == crossings_upto_row(sides, y as int, x, yy) by {
                    assert(crossings(sides_of(active@), x, yy) == crossings(
                        sides_of(joined),
                        x,
                        yy,
                    ));
                    assert(crossings(sides_of(joined), x, yy) == crossings(
                        sides_of(carried),
                        x,
                        yy,
                    ) + crossings(sides_of(table@[y as int]@), x, yy));
                    assert(crossings(sides_of(carried), x, yy) == crossings(
                        sides_of(left_over),
                        x,
                        yy,
                    ));
                    lemma_upto_row_step(sides, y as int, x, yy);
                }
                let row = row_inside(sides_of(active@), y as int);
                let above = interior_above(points, y as int);
                old(img)@.lemma_paint_twice(above, row, self.color);
                assert forall|p: (int, int)| above.union(row).contains(p) <==> interior_above(
                    points,
                    y + 1,
                ).contains(p) by {
                    lemma_upto_row_all(sides, p.0, y as int);
                    assert(crossings(sides_of(active@), p.0, y as int) == crossings_upto_row(
                        sides,
                        y as int,
                        p.0,
                        y as int,
                    ));
                }
                assert(above.union(row) =~= interior_above(points, y + 1));
            }
            y += 1;
        }
        proof {
            old(img)@.lemma_paint_agrees(
                interior_above(points, rows as int),
                polygon_interior(points),
                self.color,
            );
        }
    }

    /// Draws the outline of the polygon: the line from each point to the
    /// next, and from the last point back to the first.
    pub fn outline(&self, img: &mut Image)
        requires
            old(img).wf(),
        ensures
            final(img).wf(),
            final(img)@ == old(img)@.paint(polygon_outline(self.points@), self.color),
    {
        let ghost points = self.points@;
        let n = self.points.len();
        let mut i: usize = 0;
        proof {
            old(img)@.lemma_paint_nothing(self.color);
            assert(outline_upto(points, 0) =~= Set::<(int, int)>::empty());
        }
        while i < n
            invariant
                img.wf(),
                old(img).wf(),
                i <= n,
                n == self.points.len(),
                points == self.points@,
                img@ == old(img)@.paint(outline_upto(points, i as int), self.color),
            decreases n - i,
        {
            let line = Line::new(self.points[i], self.points[(i + 1) % n]).with_color(self.color);
            img.draw(&line);
            proof {
                let drawn = outline_upto(points, i as int);
                let added = line_pixels(points[i as int], points[(i + 1) % (n as int)]);
                old(img)@.lemma_paint_twice(drawn, added, self.color);
                assert forall|p: (int, int)| drawn.union(added).contains(p) <==> outline_upto(
                    points,
                    i + 1,
                ).contains(p) by {
                    if outline_upto(points, i + 1).contains(p) {
                        let k = choose|k: int|
                            0 <= k < i + 1 && #[trigger] line_pixels(
                                points[k],
                                points[(k + 1) % (points.len() as int)],
                            ).contains(p);
                        if k < i {
                            assert(drawn.contains(p));
                        }
                    }
                    if drawn.contains(p) {
                        let k = choose|k: int|
                            0 <= k < i && #[trigger] line_pixels(
                                points[k],
                                points[(k + 1) % (points.len() as int)],
                            ).contains(p);
                        assert(0 <= k < i + 1);
                    }
                    if added.contains(p) {
                        assert(0 <= i < i + 1);
                    }
                }
                assert(drawn.union(added) =~= outline_upto(points, i + 1));
            }
            i += 1;
        }
        proof {
            assert(outline_upto(points, n as int) =~= polygon_outline(points));
        }
    }
}

impl Shape for Polygon {
    /// A polygon paints its outline, over its inside where it is filled.
    open spec fn rendered(&self, canvas: Canvas) -> Canvas {
        let base = if self.filled {
            canvas.paint(polygon_interior(self.points@), self.color)
        } else {
            canvas
        };
        base.paint(polygon_outline(self.points@), self.color)
    }

    /// Draws the polygon: its inside first, where it is filled, then its
    /// outline.
    fn draw(&self, img: &mut Image)
        ensures
            self.filled ==> final(img)@ == old(img)@.paint(
                polygon_interior(self.points@),
                self.color,
            ).paint(polygon_outline(self.points@), self.color),
            !self.filled ==> final(img)@ == old(img)@.paint(
                polygon_outline(self.points@),
                self.color,
            ),
    {
        if self.filled {
            self.fill(img);
        }
        self.outline(img);
    }
}

} // verus!
