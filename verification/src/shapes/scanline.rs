//! The active-edge table of the polygon fill: the edges of a polygon, kept at
//! their exact crossing with the current scan line, and the steps that move
//! them from one scan line to the next.

use vstd::prelude::*;
use crate::color::Color;
use crate::geometry::vec::Vec2i;
use crate::image::Image;
use super::polygon::{crossings, Side};

verus! {

/// An entry of the edge table and of the active-edge list: a side of the
/// polygon together with the point where it crosses the current scan line.
///
/// The crossing is kept exactly, as the whole number `x` plus the fraction
/// `part / rise`, and so is the step from one scan line to the next, the
/// inverse slope `step + step_part / rise`.
#[derive(Clone, Copy, Debug)]
pub(super) struct Edge {
    pub(super) from: Vec2i,
    pub(super) to: Vec2i,
    pub(super) x: i64,
    pub(super) part: u64,
    pub(super) step: i128,
    pub(super) step_part: u64,
}

impl Edge {
    /// The side of the polygon this edge follows.
    pub(super) open spec fn side(self) -> Side {
        Side { from: self.from, to: self.to }
    }

    /// The edge climbs, and its step is its inverse slope.
    pub(super) open spec fn wf(self) -> bool {
        &&& self.side().rise() > 0
        &&& 0 <= self.step_part < self.side().rise()
        &&& self.step * self.side().rise() + self.step_part == self.side().run()
    }

    /// The edge stands at its exact crossing with scan line `y`.
    pub(super) open spec fn tracks(self, y: int) -> bool {
        &&& 0 <= self.part < self.side().rise()
        &&& self.x * self.side().rise() + self.part == self.from.x * self.side().rise() + (y
            - self.from.y) * self.side().run()
    }

    /// The edge is active on scan line `y` and stands at its crossing with it.
    pub(super) open spec fn ready(self, y: int) -> bool {
        self.wf() && self.tracks(y) && self.side().spans(y)
    }

    /// The first pixel at or right of the crossing: the crossing rounded up.
    pub(super) open spec fn toggle(self) -> int {
        if self.part == 0 {
            self.x as int
        } else {
            self.x + 1
        }
    }

    /// Whether this edge crosses the current scan line at the place where
    /// `other` does or left of it. The two crossings are fractions with
    /// different denominators, and are compared exactly.
    pub(super) open spec fn crosses_before(self, other: Edge) -> bool {
        self.x < other.x || (self.x == other.x && self.part * other.side().rise() <= other.part
            * self.side().rise())
    }

    /// An edge that crosses before another toggles the parity no later.
    pub(super) proof fn lemma_toggles_in_order(self, other: Edge)
        requires
            self.side().rise() > 0,
            other.side().rise() > 0,
            0 <= self.part < self.side().rise(),
            0 <= other.part < other.side().rise(),
            self.crosses_before(other),
        ensures
            self.toggle() <= other.toggle(),
    {
        if self.x == other.x && other.part == 0 {
            assert(self.part == 0) by (nonlinear_arith)
                requires
                    self.part * other.side().rise() <= other.part * self.side().rise(),
                    other.part == 0,
                    other.side().rise() > 0,
                    self.part >= 0,
            ;
        }
    }

    /// Crossing before is transitive.
    pub(super) proof fn lemma_crosses_before_chain(self, middle: Edge, last: Edge)
        requires
            self.side().rise() > 0,
            middle.side().rise() > 0,
            last.side().rise() > 0,
            0 <= self.part,
            0 <= middle.part,
            0 <= last.part,
            self.crosses_before(middle),
            middle.crosses_before(last),
        ensures
            self.crosses_before(last),
    {
        if self.x == middle.x && middle.x == last.x {
            let a = self.part as int;
            let b = middle.part as int;
            let c = last.part as int;
            let p = self.side().rise();
            let q = middle.side().rise();
            let r = last.side().rise();
            assert(a * r <= c * p) by (nonlinear_arith)
                requires
                    a * q <= b * p,
                    b * r <= c * q,
                    p > 0,
                    q > 0,
                    r > 0,
                    a >= 0,
                    b >= 0,
                    c >= 0,
            {
                assert((a * q) * r <= (b * p) * r);
                assert((b * r) * p <= (c * q) * p);
                assert((a * r) * q <= (c * p) * q);
            }
        }
    }

    /// The crossing lies at or left of a pixel exactly when its rounded-up
    /// position does.
    pub(super) proof fn lemma_toggle_counts(self, x: int, y: int)
        requires
            self.ready(y),
        ensures
            self.side().counts(x, y) <==> self.toggle() <= x,
    {
        let rise = self.side().rise();
        let whole = self.x as int;
        let part = self.part as int;
        assert(whole * rise + part <= x * rise <==> self.toggle() <= x) by (nonlinear_arith)
            requires
                rise > 0,
                0 <= part < rise,
                self.toggle() == if part == 0 {
                    whole
                } else {
                    whole + 1
                },
        ;
    }

    /// While an edge is between its two ends, so is its crossing.
    pub(super) proof fn lemma_crossing_in_range(self, whole: int, part: int, y: int)
        requires
            self.side().rise() > 0,
            self.from.y <= y <= self.to.y,
            0 <= part < self.side().rise(),
            whole * self.side().rise() + part == self.from.x * self.side().rise() + (y
                - self.from.y) * self.side().run(),
        ensures
            i64::MIN <= whole <= i64::MAX,
    {
        let rise = self.side().rise();
        let run = self.side().run();
        let t = y - self.from.y;
        let fx = self.from.x as int;
        let tx = self.to.x as int;
        if run >= 0 {
            assert(fx <= whole <= tx) by (nonlinear_arith)
                requires
                    rise > 0,
                    0 <= t <= rise,
                    0 <= part < rise,
                    run >= 0,
                    run == tx - fx,
                    whole * rise + part == fx * rise + t * run,
            ;
        } else {
            assert(tx <= whole <= fx) by (nonlinear_arith)
                requires
                    rise > 0,
                    0 <= t <= rise,
                    0 <= part < rise,
                    run < 0,
                    run == tx - fx,
                    whole * rise + part == fx * rise + t * run,
            ;
        }
    }

    /// The edge for the side that climbs from `first` to `next`, standing on
    /// the scan line of `first`.
    pub(super) fn from(first: &Vec2i, next: &Vec2i) -> (edge: Self)
        requires
            first.y < next.y,
        ensures
            edge.side() == (Side { from: *first, to: *next }),
            edge.wf(),
            edge.tracks(first.y as int),
    {
        let rise: u128 = (next.y as i128 - first.y as i128) as u128;
        let run: i128 = next.x as i128 - first.x as i128;
        let step: i128;
        let step_part: u64;
        if run >= 0 {
            let quotient: u128 = (run as u128) / rise;
            let rest: u128 = (run as u128) % rise;
            proof {
                vstd::arithmetic::div_mod::lemma_fundamental_div_mod(run as int, rise as int);
                assert(rise * quotient == quotient * rise) by (nonlinear_arith);
                assert(quotient <= run) by (nonlinear_arith)
                    requires
                        quotient * rise + rest == run,
                        rise >= 1,
                        rest >= 0,
                        quotient >= 0,
                ;
            }
            step = quotient as i128;
            step_part = rest as u64;
        } else {
            let back: u128 = (-run) as u128;
            let quotient: u128 = back / rise;
            let rest: u128 = back % rise;
            proof {
                vstd::arithmetic::div_mod::lemma_fundamental_div_mod(back as int, rise as int);
                assert(rise * quotient == quotient * rise) by (nonlinear_arith);
                assert(quotient <= back) by (nonlinear_arith)
                    requires
                        quotient * rise + rest == back,
                        rise >= 1,
                        rest >= 0,
                        quotient >= 0,
                ;
            }
            if rest == 0 {
                step = -(quotient as i128);
                step_part = 0;
                proof {
                    assert((-(quotient as int)) * rise == -(quotient * rise)) by (nonlinear_arith);
                }
            } else {
                step = -(quotient as i128) - 1;
                step_part = (rise - rest) as u64;
                proof {
                    assert((-(quotient as int) - 1) * rise == -(quotient * rise) - rise)
                        by (nonlinear_arith);
                }
            }
        }
        let edge = Edge { from: *first, to: *next, x: first.x, part: 0, step, step_part };
        proof {
            assert((first.y - first.y) * edge.side().run() == 0) by (nonlinear_arith);
        }
        edge
    }

    /// The edge moved on from scan line `y` to the next one: its crossing
    /// advanced by the inverse slope.
    pub(super) fn advanced(&self, Ghost(y): Ghost<int>) -> (edge: Self)
        requires
            self.wf(),
            self.tracks(y),
            self.from.y <= y < self.to.y,
        ensures
            edge.side() == self.side(),
            edge.wf(),
            edge.tracks(y + 1),
    {
        let rise: u128 = (self.to.y as i128 - self.from.y as i128) as u128;
        let sum: u128 = self.part as u128 + self.step_part as u128;
        let (carry, part): (i128, u128) = if sum >= rise {
            (1, (sum - rise) as u128)
        } else {
            (0, sum)
        };
        proof {
            let side = self.side();
            let whole = self.x + self.step + carry;
            assert(whole * side.rise() + part == self.from.x * side.rise() + (y + 1 - self.from.y)
                * side.run()) by (nonlinear_arith)
                requires
                    self.x * side.rise() + self.part == self.from.x * side.rise() + (y
                        - self.from.y) * side.run(),
                    self.step * side.rise() + self.step_part == side.run(),
                    whole == self.x + self.step + carry,
                    part + carry * side.rise() == self.part + self.step_part,
            ;
            self.lemma_crossing_in_range(whole, part as int, y + 1);
        }
        let x: i128 = self.x as i128 + self.step + carry;
        Edge {
            from: self.from,
            to: self.to,
            x: x as i64,
            part: part as u64,
            step: self.step,
            step_part: self.step_part,
        }
    }

    /// Whether this edge crosses the current scan line strictly left of where
    /// `other` does.
    pub(super) fn left_of(&self, other: &Edge) -> (left: bool)
        requires
            self.wf(),
            other.wf(),
            0 <= self.part < self.side().rise(),
            0 <= other.part < other.side().rise(),
        ensures
            left == !other.crosses_before(*self),
    {
        if self.x != other.x {
            self.x < other.x
        } else {
            let own_rise: u128 = (self.to.y as i128 - self.from.y as i128) as u128;
            let other_rise: u128 = (other.to.y as i128 - other.from.y as i128) as u128;
            proof {
                assert(self.part * other_rise <= u64::MAX * u64::MAX) by (nonlinear_arith)
                    requires
                        0 <= self.part <= u64::MAX,
                        0 <= other_rise <= u64::MAX,
                ;
                assert(other.part * own_rise <= u64::MAX * u64::MAX) by (nonlinear_arith)
                    requires
                        0 <= other.part <= u64::MAX,
                        0 <= own_rise <= u64::MAX,
                ;
            }
            (self.part as u128) * other_rise < (other.part as u128) * own_rise
        }
    }

    /// The pixel at which the edge toggles the parity on the current scan
    /// line.
    pub(super) fn toggle_x(&self) -> (x: i128)
        ensures
            x == self.toggle(),
    {
        if self.part == 0 {
            self.x as i128
        } else {
            self.x as i128 + 1
        }
    }
}

/// One more side adds one to the count where it counts.
pub(super) proof fn lemma_crossings_push(sides: Seq<Side>, side: Side, x: int, y: int)
    ensures
        crossings(sides.push(side), x, y) == crossings(sides, x, y) + if side.counts(x, y) {
            1nat
        } else {
            0nat
        },
{
    assert(sides.push(side).drop_last() =~= sides);
}

/// The count of two lists of sides put together is the sum of their counts.
pub(super) proof fn lemma_crossings_concat(first: Seq<Side>, second: Seq<Side>, x: int, y: int)
    ensures
        crossings(first + second, x, y) == crossings(first, x, y) + crossings(second, x, y),
    decreases second.len(),
{
    if second.len() == 0 {
        assert(first + second =~= first);
    } else {
        lemma_crossings_concat(first, second.drop_last(), x, y);
        assert((first + second).drop_last() =~= first + second.drop_last());
    }
}

/// The sides that a list of edges follows, in the same order.
pub(super) open spec fn sides_of(edges: Seq<Edge>) -> Seq<Side> {
    Seq::new(edges.len(), |i: int| edges[i].side())
}

/// Every edge of the list is active on scan line `y` and stands at its
/// crossing with it.
pub(super) open spec fn all_ready(edges: Seq<Edge>, y: int) -> bool {
    forall|i: int| 0 <= i < edges.len() ==> (#[trigger] edges[i]).ready(y)
}

/// The edges stand in the order in which they cross the current scan line,
/// from left to right.
pub(super) open spec fn sorted_by_crossing(edges: Seq<Edge>) -> bool {
    forall|i: int, j: int|
        0 <= i <= j < edges.len() ==> (#[trigger] edges[i]).crosses_before(#[trigger] edges[j])
}

/// The pixels of scan line `y` that an odd number of the sides lie at or left
/// of.
pub(super) open spec fn row_inside(sides: Seq<Side>, y: int) -> Set<(int, int)> {
    Set::new(|p: (int, int)| p.1 == y && crossings(sides, p.0, y) % 2 == 1)
}

/// The pixels of `row_inside` left of column `x`.
pub(super) open spec fn row_inside_before(sides: Seq<Side>, y: int, x: int) -> Set<(int, int)> {
    Set::new(|p: (int, int)| p.1 == y && 0 <= p.0 < x && crossings(sides, p.0, y) % 2 == 1)
}

/// One more edge follows one more side.
pub(super) proof fn lemma_sides_of_push(edges: Seq<Edge>, edge: Edge)
    ensures
        sides_of(edges.push(edge)) == sides_of(edges).push(edge.side()),
{
    assert(sides_of(edges.push(edge)) =~= sides_of(edges).push(edge.side()));
}

/// Exchanging two neighbours in a list of sides changes no count.
pub(super) proof fn lemma_crossings_swap(sides: Seq<Side>, j: int, x: int, y: int)
    requires
        0 < j < sides.len(),
    ensures
        crossings(sides.update(j - 1, sides[j]).update(j, sides[j - 1]), x, y) == crossings(
            sides,
            x,
            y,
        ),
{
    let before = sides.take(j - 1);
    let after = sides.skip(j + 1);
    let swapped = sides.update(j - 1, sides[j]).update(j, sides[j - 1]);
    assert(sides =~= before.push(sides[j - 1]).push(sides[j]) + after);
    assert(swapped =~= before.push(sides[j]).push(sides[j - 1]) + after);
    lemma_crossings_concat(before.push(sides[j - 1]).push(sides[j]), after, x, y);
    lemma_crossings_concat(before.push(sides[j]).push(sides[j - 1]), after, x, y);
    lemma_crossings_push(before.push(sides[j - 1]), sides[j], x, y);
    lemma_crossings_push(before, sides[j - 1], x, y);
    lemma_crossings_push(before.push(sides[j]), sides[j - 1], x, y);
    lemma_crossings_push(before, sides[j], x, y);
}

/// In a list whose first `index` edges count at a pixel and whose other
/// edges do not, the number of crossings is `index`.
pub(super) proof fn lemma_crossings_split(edges: Seq<Edge>, index: int, x: int, y: int)
    requires
        0 <= index <= edges.len(),
        forall|k: int| 0 <= k < index ==> (#[trigger] edges[k]).side().counts(x, y),
        forall|k: int| index <= k < edges.len() ==> !(#[trigger] edges[k]).side().counts(x, y),
    ensures
        crossings(sides_of(edges), x, y) == index,
    decreases edges.len(),
{
    if edges.len() > 0 {
        let last = edges.len() - 1;
        assert(sides_of(edges).drop_last() =~= sides_of(edges.drop_last()));
        assert(sides_of(edges).last() == edges[last].side());
        if index == edges.len() {
            lemma_crossings_split(edges.drop_last(), index - 1, x, y);
        } else {
            lemma_crossings_split(edges.drop_last(), index, x, y);
        }
    }
}

/// Exchanging two neighbours in a list keeps what the list holds.
pub(super) proof fn lemma_swap_keeps_edges(edges: Seq<Edge>, j: int)
    requires
        0 < j < edges.len(),
    ensures
        edges.update(j - 1, edges[j]).update(j, edges[j - 1]).to_multiset() == edges.to_multiset(),
{
    let before = edges.take(j - 1);
    let after = edges.skip(j + 1);
    let swapped = edges.update(j - 1, edges[j]).update(j, edges[j - 1]);
    let one = before.push(edges[j - 1]).push(edges[j]);
    let other = before.push(edges[j]).push(edges[j - 1]);
    assert(edges =~= one + after);
    assert(swapped =~= other + after);
    vstd::seq_lib::lemma_multiset_commutative(one, after);
    vstd::seq_lib::lemma_multiset_commutative(other, after);
    vstd::seq_lib::to_multiset_build(before, edges[j - 1]);
    vstd::seq_lib::to_multiset_build(before.push(edges[j - 1]), edges[j]);
    vstd::seq_lib::to_multiset_build(before, edges[j]);
    vstd::seq_lib::to_multiset_build(before.push(edges[j]), edges[j - 1]);
    assert(one.to_multiset() =~= other.to_multiset());
}

/// Sorts the edges by where they cross the current scan line, from left to
/// right. Edges that cross at the same place keep their order.
///
/// The result holds the edges that were there, so that they count the same
/// at every pixel, in the order of their crossings.
pub(super) fn sort_by_x(edges: &mut Vec<Edge>, Ghost(y): Ghost<int>)
    requires
        all_ready(old(edges)@, y),
    ensures
        all_ready(final(edges)@, y),
        sorted_by_crossing(final(edges)@),
        final(edges)@.to_multiset() == old(edges)@.to_multiset(),
        forall|x: int, yy: int| #[trigger]
            crossings(sides_of(final(edges)@), x, yy) == crossings(sides_of(old(edges)@), x, yy),
{
    let n = edges.len();
    let mut i: usize = 0;
    while i < n
        invariant
            edges.len() == n,
            i <= n,
            all_ready(edges@, y),
            sorted_by_crossing(edges@.take(i as int)),
            edges@.to_multiset() == old(edges)@.to_multiset(),
            forall|x: int, yy: int| #[trigger]
                crossings(sides_of(edges@), x, yy) == crossings(sides_of(old(edges)@), x, yy),
        decreases n - i,
    {
        // the edge at `i` sinks to its place among the edges before it
        let mut j: usize = i;
        assert forall|a: int, b: int| 0 <= a <= b <= i && a != j && b != j implies (
        #[trigger] edges@[a]).crosses_before(#[trigger] edges@[b]) by {
            assert(edges@.take(i as int)[a] == edges@[a]);
            assert(edges@.take(i as int)[b] == edges@[b]);
        }
        while j > 0 && edges[j].left_of(&edges[j - 1])
            invariant
                edges.len() == n,
                j <= i < n,
                all_ready(edges@, y),
                forall|a: int, b: int|
                    0 <= a <= b <= i && a != j && b != j ==> (#[trigger] edges@[a]).crosses_before(
                        #[trigger] edges@[b],
                    ),
                forall|b: int|
                    j < b <= i ==> edges@[j as int].crosses_before(#[trigger] edges@[b]),
                edges@.to_multiset() == old(edges)@.to_multiset(),
                forall|x: int, yy: int| #[trigger]
                    crossings(sides_of(edges@), x, yy) == crossings(sides_of(old(edges)@), x, yy),
            decreases j,
        {
            let ghost before = edges@;
            let left = edges[j - 1];
            let right = edges[j];
            edges[j - 1] = right;
            edges[j] = left;
            proof {
                assert(edges@ =~= before.update(j - 1, before[j as int]).update(
                    j as int,
                    before[j - 1],
                ));
                lemma_swap_keeps_edges(before, j as int);
                assert(sides_of(edges@) =~= sides_of(before).update(
                    j - 1,
                    sides_of(before)[j as int],
                ).update(j as int, sides_of(before)[j - 1]));
                assert forall|x: int, yy: int| #[trigger]
                    crossings(sides_of(edges@), x, yy) == crossings(
                        sides_of(old(edges)@),
                        x,
                        yy,
                    ) by {
                    lemma_crossings_swap(sides_of(before), j as int, x, yy);
                }
                assert forall|a: int, b: int|
                    0 <= a <= b <= i && a != j - 1 && b != j - 1 implies (#[trigger] edges@[a]).crosses_before(
                    #[trigger] edges@[b],
                ) by {
                    let a0 = if a == j { j - 1 } else { a };
                    let b0 = if b == j { j - 1 } else { b };
                    assert(edges@[a] == before[a0]);
                    assert(edges@[b] == before[b0]);
                    assert(before[a0].crosses_before(before[b0]));
                }
                assert forall|b: int| j - 1 < b <= i implies edges@[j - 1].crosses_before(
                    #[trigger] edges@[b],
                ) by {
                    if b == j {
                        assert(before[j as int].ready(y) && before[j - 1].ready(y));
                    } else {
                        assert(edges@[b] == before[b]);
                    }
                }
            }
            j -= 1;
        }
        proof {
            assert forall|a: int, b: int| 0 <= a <= b < i + 1 implies (#[trigger] edges@.take(
                i + 1,
            )[a]).crosses_before(#[trigger] edges@.take(i + 1)[b]) by {
                assert(edges@[a].ready(y) && edges@[b].ready(y));
                if a == b {
                } else if b == j {
                    // `a` stands before `j - 1`, which stands before `j`
                    assert(edges@[j - 1].ready(y));
                    assert(edges@[j - 1].crosses_before(edges@[j as int]));
                    if a != j - 1 {
                        assert(edges@[a].crosses_before(edges@[j - 1]));
                        edges@[a].lemma_crosses_before_chain(edges@[j - 1], edges@[j as int]);
                    }
                } else if a == j {
                } else {
                }
            }
        }
        i += 1;
    }
    proof {
        assert(edges@.take(n as int) =~= edges@);
    }
}

/// Walks the edges, sorted from left to right, along scan line `y` and
/// writes the pixels at which an odd number of edges has been passed.
pub(super) fn fill_row(img: &mut Image, active: &Vec<Edge>, y: usize, color: &Color)
    requires
        old(img).wf(),
        y < old(img)@.height,
        all_ready(active@, y as int),
        sorted_by_crossing(active@),
    ensures
        final(img).wf(),
        final(img)@ == old(img)@.paint(row_inside(sides_of(active@), y as int), *color),
{
    let cols = img.cols();
    let mut in_shape = false;
    let mut index: usize = 0;
    let mut x: usize = 0;
    proof {
        old(img)@.lemma_paint_nothing(*color);
        assert(row_inside_before(sides_of(active@), y as int, 0) =~= Set::<(int, int)>::empty());
    }
    while x < cols
        invariant
            img.wf(),
            old(img).wf(),
            cols == old(img)@.width,
            y < old(img)@.height,
            x <= cols,
            index <= active.len(),
            all_ready(active@, y as int),
            sorted_by_crossing(active@),
            in_shape <==> index % 2 == 1,
            forall|k: int| 0 <= k < index ==> (#[trigger] active@[k]).toggle() <= x,
            img@ == old(img)@.paint(row_inside_before(sides_of(active@), y as int, x as int), *color),
        decreases cols - x,
    {
        while index < active.len() && active[index].toggle_x() <= x as i128
            invariant
                index <= active.len(),
                in_shape <==> index % 2 == 1,
                forall|k: int| 0 <= k < index ==> (#[trigger] active@[k]).toggle() <= x,
            decreases active.len() - index,
        {
            // crossing an edge flips the parity
            in_shape = !in_shape;
            index += 1;
        }
        proof {
            let sides = sides_of(active@);
            assert forall|k: int| 0 <= k < index implies (#[trigger] active@[k]).side().counts(
                x as int,
                y as int,
            ) by {
                active@[k].lemma_toggle_counts(x as int, y as int);
            }
            assert forall|k: int| index <= k < active.len() implies !(#[trigger] active@[k]).side().counts(
                x as int,
                y as int,
            ) by {
                active@[k].lemma_toggle_counts(x as int, y as int);
                assert(active@[index as int].ready(y as int));
                active@[index as int].lemma_toggles_in_order(active@[k]);
            }
            lemma_crossings_split(active@, index as int, x as int, y as int);
            let before = row_inside_before(sides, y as int, x as int);
            let grown = row_inside_before(sides, y as int, x + 1);
            if in_shape {
                old(img)@.lemma_paint_then_set(before, x as int, y as int, *color);
                assert(grown =~= before.insert((x as int, y as int)));
            } else {
                assert(grown =~= before);
            }
        }
        if in_shape {
            img.set(x, y, color);
        }
        x += 1;
    }
    proof {
        old(img)@.lemma_paint_agrees(
            row_inside_before(sides_of(active@), y as int, cols as int),
            row_inside(sides_of(active@), y as int),
            *color,
        );
    }
}

/// The number of sides that start on scan line `row` and count at pixel `x`
/// of scan line `y`.
pub(super) open spec fn crossings_from_row(sides: Seq<Side>, row: int, x: int, y: int) -> nat
    decreases sides.len(),
{
    if sides.len() == 0 {
        0
    } else {
        crossings_from_row(sides.drop_last(), row, x, y) + if sides.last().from.y == row
            && sides.last().counts(x, y) {
            1nat
        } else {
            0nat
        }
    }
}

/// The number of sides that start on scan line `row` or above it and count
/// at pixel `x` of scan line `y`.
pub(super) open spec fn crossings_upto_row(sides: Seq<Side>, row: int, x: int, y: int) -> nat
    decreases sides.len(),
{
    if sides.len() == 0 {
        0
    } else {
        crossings_upto_row(sides.drop_last(), row, x, y) + if sides.last().from.y <= row
            && sides.last().counts(x, y) {
            1nat
        } else {
            0nat
        }
    }
}

/// The starts on a scan line in two lists of sides put together are the
/// starts in the one and the starts in the other.
pub(super) proof fn lemma_from_row_concat(first: Seq<Side>, second: Seq<Side>, row: int, x: int, y: int)
    ensures
        crossings_from_row(first + second, row, x, y) == crossings_from_row(first, row, x, y)
            + crossings_from_row(second, row, x, y),
    decreases second.len(),
{
    if second.len() == 0 {
        assert(first + second =~= first);
    } else {
        lemma_from_row_concat(first, second.drop_last(), row, x, y);
        assert((first + second).drop_last() =~= first + second.drop_last());
    }
}

/// The sides that start at or above a scan line are those that start above
/// it and those that start on it.
pub(super) proof fn lemma_upto_row_step(sides: Seq<Side>, row: int, x: int, y: int)
    ensures
        crossings_upto_row(sides, row, x, y) == crossings_upto_row(sides, row - 1, x, y)
            + crossings_from_row(sides, row, x, y),
    decreases sides.len(),
{
    if sides.len() > 0 {
        lemma_upto_row_step(sides.drop_last(), row, x, y);
    }
}

/// No side starts above the first scan line.
pub(super) proof fn lemma_upto_row_none(sides: Seq<Side>, row: int, x: int, y: int)
    requires
        row < 0,
    ensures
        crossings_upto_row(sides, row, x, y) == 0,
    decreases sides.len(),
{
    if sides.len() > 0 {
        lemma_upto_row_none(sides.drop_last(), row, x, y);
    }
}

/// On a scan line, only sides that start at or above it count.
pub(super) proof fn lemma_upto_row_all(sides: Seq<Side>, x: int, y: int)
    ensures
        crossings_upto_row(sides, y, x, y) == crossings(sides, x, y),
    decreases sides.len(),
{
    if sides.len() > 0 {
        lemma_upto_row_all(sides.drop_last(), x, y);
    }
}

/// Moves the active edges on to scan line `y`: edges that end at `y` or above
/// are dropped, the others advance by their inverse slope.
pub(super) fn carry_over(active: &Vec<Edge>, y: usize) -> (kept: Vec<Edge>)
    requires
        all_ready(active@, y - 1),
    ensures
        all_ready(kept@, y as int),
        forall|x: int, yy: int|
            yy >= y ==> #[trigger] crossings(sides_of(kept@), x, yy) == crossings(
                sides_of(active@),
                x,
                yy,
            ),
{
    let mut kept: Vec<Edge> = Vec::new();
    let mut i: usize = 0;
    proof {
        assert(sides_of(kept@) =~= sides_of(active@.take(0)));
    }
    while i < active.len()
        invariant
            i <= active.len(),
            all_ready(active@, y - 1),
            all_ready(kept@, y as int),
            forall|x: int, yy: int|
                yy >= y ==> #[trigger] crossings(sides_of(kept@), x, yy) == crossings(
                    sides_of(active@.take(i as int)),
                    x,
                    yy,
                ),
        decreases active.len() - i,
    {
        let edge = active[i];
        let ghost seen = active@.take(i as int);
        let ghost held = kept@;
        assert(edge.ready(y - 1));
        proof {
            assert(active@.take(i + 1) =~= seen.push(edge));
            lemma_sides_of_push(seen, edge);
        }
        if edge.to.y as i128 > y as i128 {
            let moved = edge.advanced(Ghost(y - 1));
            kept.push(moved);
            proof {
                lemma_sides_of_push(held, moved);
                assert forall|x: int, yy: int| yy >= y implies #[trigger] crossings(
                    sides_of(kept@),
                    x,
                    yy,
                ) == crossings(sides_of(active@.take(i + 1)), x, yy) by {
                    lemma_crossings_push(sides_of(held), moved.side(), x, yy);
                    lemma_crossings_push(sides_of(seen), edge.side(), x, yy);
                }
            }
        } else {
            proof {
                assert forall|x: int, yy: int| yy >= y implies #[trigger] crossings(
                    sides_of(kept@),
                    x,
                    yy,
                ) == crossings(sides_of(active@.take(i + 1)), x, yy) by {
                    lemma_crossings_push(sides_of(seen), edge.side(), x, yy);
                }
            }
        }
        i += 1;
    }
    proof {
        assert(active@.take(active.len() as int) =~= active@);
    }
    kept
}

/// Adds the edges that start on the current scan line to the active edges.
pub(super) fn take_in(active: &mut Vec<Edge>, starting: &Vec<Edge>, Ghost(y): Ghost<int>)
    requires
        all_ready(old(active)@, y),
        all_ready(starting@, y),
    ensures
        all_ready(final(active)@, y),
        forall|x: int, yy: int| #[trigger]
            crossings(sides_of(final(active)@), x, yy) == crossings(sides_of(old(active)@), x, yy)
                + crossings(sides_of(starting@), x, yy),
{
    let mut i: usize = 0;
    proof {
        assert(sides_of(starting@.take(0)) =~= Seq::<Side>::empty());
    }
    while i < starting.len()
        invariant
            i <= starting.len(),
            all_ready(active@, y),
            all_ready(starting@, y),
            forall|x: int, yy: int| #[trigger]
                crossings(sides_of(active@), x, yy) == crossings(sides_of(old(active)@), x, yy)
                    + crossings(sides_of(starting@.take(i as int)), x, yy),
        decreases starting.len() - i,
    {
        let edge = starting[i];
        let ghost seen = starting@.take(i as int);
        let ghost held = active@;
        active.push(edge);
        proof {
            assert(starting@.take(i + 1) =~= seen.push(edge));
            lemma_sides_of_push(seen, edge);
            lemma_sides_of_push(held, edge);
            assert forall|x: int, yy: int| #[trigger]
                crossings(sides_of(active@), x, yy) == crossings(sides_of(old(active)@), x, yy)
                    + crossings(sides_of(starting@.take(i + 1)), x, yy) by {
                lemma_crossings_push(sides_of(held), edge.side(), x, yy);
                lemma_crossings_push(sides_of(seen), edge.side(), x, yy);
            }
        }
        i += 1;
    }
    proof {
        assert(starting@.take(starting.len() as int) =~= starting@);
    }
}

} // verus!
