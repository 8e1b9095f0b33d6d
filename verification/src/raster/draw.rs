//! The points of a whole walk, and the drawing of a line on a canvas.

use crate::raster::line::{fits, major_of, span, toward, LineRasterizer, LIMIT};
use crate::raster::pixmap::Canvas;
use crate::raster::vec3::Vec3;
use vstd::prelude::*;

verus! {

impl LineRasterizer {
    /// The walk after `n` calls of `next_point`.
    pub open spec fn after(&self, n: nat) -> LineRasterizer
        decreases n,
    {
        if n == 0 {
            *self
        } else {
            self.after((n - 1) as nat).stepped()
        }
    }

    /// The point that call number `n` of `next_point` hands out, counted
    /// from 0.
    pub open spec fn point(&self, n: nat) -> Option<Vec3> {
        self.after(n).yields()
    }

    /// The number of steps of a walk from `from` to `to`.
    pub open spec fn steps(from: Vec3, to: Vec3) -> nat {
        span(from, to, major_of(from, to)) as nat
    }

    /// No call of `next_point`, however many there are, computes a number
    /// that an `i32` cannot hold.
    pub open spec fn never_overflows(&self) -> bool {
        forall|k: nat| (#[trigger] self.after(k)).can_step()
    }

    /// The walk is on its course, has no span along an axis beyond the
    /// limit, and nothing has added up along an axis beyond the limit.
    pub open spec fn tame(&self) -> bool {
        &&& self.on_course()
        &&& forall|i: int| 0 <= i < 3 ==> #[trigger] self.left(i) <= LIMIT
        &&& self.state matches Some(s) ==> forall|i: int| 0 <= i < 3 ==> #[trigger] s.d.at(i) <= LIMIT
    }

    /// A tame walk can take its next step, and is tame again after it.
    pub proof fn lemma_tame_steps(&self)
        requires
            self.tame(),
        ensures
            self.can_step(),
            self.stepped().tame(),
    {
        assert(self.left(0) <= LIMIT && self.left(1) <= LIMIT && self.left(2) <= LIMIT);
        if self.state is Some && self.from != self.to {
            let s = self.state->0;
            let major = s.major_axis as int;
            assert(self.left(major) <= LIMIT);
            if self.left(major) <= 0 {
                assert(self.left(major) == 0);
                self.lemma_arrived();
            }
            assert(s.step.at(major) == toward(self.from.at(major), self.to.at(major)));
            assert forall|i: int| 0 <= i < 3 && i != s.major_axis && #[trigger] self.left(i)
                > 0 implies fits(s.d.at(i) + self.left(i)) && (
            self.steps_along(s, i) ==> fits(self.from.at(i) + s.step.at(i))) by {
                assert(0 <= s.d.at(i) <= LIMIT);
                assert(s.step.at(i) == toward(self.from.at(i), self.to.at(i)));
            }
        }
        self.lemma_stepped(self.from);
        let next = self.stepped();
        assert forall|i: int| 0 <= i < 3 implies #[trigger] next.left(i) <= LIMIT by {
            assert(next.left(i) <= self.left(i));
        }
        assert forall|i: int| 0 <= i < 3 implies #[trigger] next.state->0.d.at(i) <= LIMIT by {
            if self.state is Some {
                let s = self.state->0;
                assert(s.d.at(i) <= LIMIT);
                assert(self.left(s.major_axis as int) <= LIMIT);
                assert(next.state->0.d.at(i) <= s.d.at(i) || next.state->0.d.at(i) < self.left(
                    s.major_axis as int,
                ));
            }
        }
    }

    /// A tame walk stays tame, however many steps it takes.
    pub proof fn lemma_tame_after(&self, k: nat)
        requires
            self.tame(),
        ensures
            self.after(k).tame(),
            self.after(k).can_step(),
        decreases k,
    {
        if k > 0 {
            self.lemma_tame_after((k - 1) as nat);
            self.after((k - 1) as nat).lemma_tame_steps();
        }
        self.after(k).lemma_tame_steps();
    }

    /// A walk that has not begun, with no span along an axis beyond the
    /// limit, never computes a number that an `i32` cannot hold.
    pub proof fn lemma_short_spans(&self)
        requires
            self.state is None,
            forall|i: int| 0 <= i < 3 ==> #[trigger] span(self.from, self.to, i) <= LIMIT,
        ensures
            self.never_overflows(),
    {
        assert forall|i: int| 0 <= i < 3 implies #[trigger] self.left(i) <= LIMIT by {
            assert(span(self.from, self.to, i) <= LIMIT);
        }
        assert forall|k: nat| (#[trigger] self.after(k)).can_step() by {
            self.lemma_tame_after(k);
        }
    }

    /// After its first `n + 1` calls a walk that had not begun has `n` steps
    /// less to go, or none, stands between its start and its end, and is no
    /// further than one from where it stood before along any axis.
    pub proof fn lemma_after(&self, n: nat)
        requires
            self.state is None,
            self.never_overflows(),
        ensures
            self.after(n + 1).on_course(),
            self.after(n + 1).can_step(),
            self.after(n + 1).to == self.to,
            self.after(n + 1).state is Some,
            self.after(n + 1).state->0.major_axis == major_of(self.from, self.to),
            self.after(n + 1).left(major_of(self.from, self.to)) == if n <= Self::steps(
                self.from,
                self.to,
            ) {
                Self::steps(self.from, self.to) - n
            } else {
                0
            },
            forall|i: int|
                0 <= i < 3 ==> #[trigger] Self::between(
                    self.from,
                    self.after(n + 1).from,
                    self.to,
                    i,
                ),
            n == 0 ==> self.after(n + 1).from == self.from,
        decreases n,
    {
        assert(self.after(0).can_step());
        assert(self.after(n + 1).can_step());
        assert(self.after(1) == self.after(0).stepped());
        if n == 0 {
            self.lemma_stepped(self.from);
            assert forall|i: int| 0 <= i < 3 implies #[trigger] Self::between(
                self.from,
                self.after(1).from,
                self.to,
                i,
            ) by {}
        } else {
            self.lemma_after((n - 1) as nat);
            let w = self.after(n);
            w.lemma_stepped(self.from);
            assert(self.after(n + 1) == w.stepped());
            let major = major_of(self.from, self.to);
            if w.from == w.to {
                assert(w.left(major) == 0);
            } else if w.left(major) == 0 {
                w.lemma_arrived();
            }
        }
    }

    /// Call number `n` of a walk that has as many steps to go or more hands
    /// out the point at which the walk stands after the call, which lies
    /// between the start and the end.
    pub proof fn lemma_point_some(&self, n: nat)
        requires
            self.state is None,
            self.never_overflows(),
            n <= Self::steps(self.from, self.to),
        ensures
            self.point(n) == Some(self.after(n + 1).from),
            forall|i: int|
                0 <= i < 3 ==> #[trigger] Self::between(self.from, self.after(n + 1).from, self.to, i),
    {
        let major = major_of(self.from, self.to);
        self.lemma_after(n);
        if n > 0 {
            self.lemma_after((n - 1) as nat);
            let w = self.after(n);
            assert(self.after(n + 1) == w.stepped());
            assert(w.left(major) > 0);
        } else {
            assert(self.after(1) == self.after(0).stepped());
        }
    }

    /// Call number `n` of a walk that has fewer steps to go hands out no
    /// point.
    pub proof fn lemma_point_none(&self, n: nat)
        requires
            self.state is None,
            self.never_overflows(),
            n > Self::steps(self.from, self.to),
        ensures
            self.point(n).is_none(),
    {
        self.lemma_after((n - 1) as nat);
        self.after(n).lemma_arrived();
    }

    /// The last point of a walk is its end.
    pub proof fn lemma_last_point(&self)
        requires
            self.state is None,
            self.never_overflows(),
        ensures
            self.after(Self::steps(self.from, self.to) + 1).from == self.to,
    {
        let len = Self::steps(self.from, self.to);
        let major = major_of(self.from, self.to);
        self.lemma_after(len);
        self.after(len + 1).lemma_arrived();
    }

    /// From the point of call number `n` to the next the walk goes one along
    /// the major axis and one at most along each other axis, and along no
    /// axis away from its end.
    pub proof fn lemma_stride(&self, n: nat)
        requires
            self.state is None,
            self.never_overflows(),
            n < Self::steps(self.from, self.to),
        ensures
            span(
                self.after(n + 1).from,
                self.after(n + 2).from,
                major_of(self.from, self.to),
            ) == 1,
            forall|i: int|
                0 <= i < 3 ==> #[trigger] span(self.after(n + 1).from, self.after(n + 2).from, i)
                    <= 1,
            forall|i: int|
                0 <= i < 3 ==> #[trigger] span(self.after(n + 2).from, self.to, i) <= span(
                    self.after(n + 1).from,
                    self.to,
                    i,
                ),
    {
        let major = major_of(self.from, self.to);
        self.lemma_after(n);
        let w = self.after(n + 1);
        assert(self.after(n + 2) == w.stepped());
        assert(w.left(major) > 0);
        w.lemma_stepped(self.from);
        assert forall|i: int| 0 <= i < 3 implies #[trigger] span(w.stepped().from, self.to, i)
            <= span(w.from, self.to, i) by {
            assert(w.stepped().left(i) <= w.left(i));
        }
    }

    /// A walk from `from` to `to` on which nothing overflows hands out one
    /// point more than it has steps to go, first `from`, last `to`, all of
    /// them between the two, and then none. From one point to the next the
    /// walk goes one along the major axis and one at most along each other
    /// axis, and along no axis away from `to`.
    pub proof fn law_walk_arrives(&self, n: nat)
        requires
            self.state is None,
            self.never_overflows(),
        ensures
            self.point(0) == Some(self.from),
            self.point(Self::steps(self.from, self.to)) == Some(self.to),
            n <= Self::steps(self.from, self.to) ==> self.point(n) is Some && forall|i: int|
                0 <= i < 3 ==> #[trigger] Self::between(self.from, self.point(n)->0, self.to, i),
            n > Self::steps(self.from, self.to) ==> self.point(n).is_none(),
            n < Self::steps(self.from, self.to) ==> self.point(n + 1) is Some && span(
                self.point(n)->0,
                self.point(n + 1)->0,
                major_of(self.from, self.to),
            ) == 1,
            n < Self::steps(self.from, self.to) ==> forall|i: int|
                0 <= i < 3 ==> #[trigger] span(self.point(n)->0, self.point(n + 1)->0, i) <= 1,
            n < Self::steps(self.from, self.to) ==> forall|i: int|
                0 <= i < 3 ==> #[trigger] span(self.point(n + 1)->0, self.to, i) <= span(
                    self.point(n)->0,
                    self.to,
                    i,
                ),
    {
        let len = Self::steps(self.from, self.to);
        self.lemma_point_some(0);
        self.lemma_after(0);
        self.lemma_point_some(len);
        self.lemma_last_point();
        if n <= len {
            self.lemma_point_some(n);
        } else {
            self.lemma_point_none(n);
        }
        if n < len {
            self.lemma_point_some(n + 1);
            self.lemma_stride(n);
        }
    }
}

/// The walk along the line that the drawing functions draw.
pub open spec fn sample() -> LineRasterizer {
    LineRasterizer {
        from: Vec3 { x: 0, y: 0, z: 0 },
        to: Vec3 { x: 50, y: 55, z: -20i32 },
        state: None,
    }
}

/// Point number `k` of the sample walk lies in row `i` at column `j`.
pub open spec fn passes(k: nat, i: int, j: int) -> bool {
    sample().point(k) matches Some(p) && p.x == i && p.y == j
}

/// One of the first `n` points of the sample walk lies in row `i` at column
/// `j`.
pub open spec fn drawn(i: int, j: int, n: nat) -> bool {
    exists|k: nat| k < n && #[trigger] passes(k, i, j)
}

/// The sample line passes through row `i` at column `j`.
pub open spec fn on_line(i: int, j: int) -> bool {
    exists|k: nat| #[trigger] passes(k, i, j)
}

/// Draws the line from (0, 0, 0) to (50, 55, -20) on the canvas: each pixel
/// in the row and at the column that the first two coordinates of a point of
/// the walk name gets the colour `u32::MAX`.
pub fn draw_generic<T: Canvas + ?Sized>(canvas: &mut T)
    requires
        forall|i: int, j: int| 0 <= i <= 50 && 0 <= j <= 55 ==> old(canvas).holds(i, j),
    ensures
        forall|i: int, j: int| final(canvas).holds(i, j) == old(canvas).holds(i, j),
        forall|i: int, j: int|
            old(canvas).holds(i, j) ==> #[trigger] final(canvas).pixel(i, j) == if on_line(i, j) {
                u32::MAX
            } else {
                old(canvas).pixel(i, j)
            },
{
    let a = Vec3 { x: 0, y: 0, z: 0 };
    let b = Vec3 { x: 50, y: 55, z: -20 };

    let mut rasterizer = LineRasterizer::new(a, b);
    let ghost mut n: nat = 0;
    proof {
        assert(rasterizer == sample());
        assert forall|i: int| 0 <= i < 3 implies #[trigger] span(a, b, i) <= LIMIT by {}
        sample().lemma_short_spans();
        assert(sample().after(0).can_step());
    }
    loop
        invariant_except_break
            rasterizer == sample().after(n),
        invariant
            a == sample().from,
            b == sample().to,
            sample().state is None,
            sample().never_overflows(),
            rasterizer.can_step(),
            n > 0 ==> rasterizer.state is Some && rasterizer.on_course(),
            forall|i: int, j: int| canvas.holds(i, j) == old(canvas).holds(i, j),
            forall|i: int, j: int| 0 <= i <= 50 && 0 <= j <= 55 ==> old(canvas).holds(i, j),
            forall|i: int, j: int|
                old(canvas).holds(i, j) ==> #[trigger] canvas.pixel(i, j) == if drawn(i, j, n) {
                    u32::MAX
                } else {
                    old(canvas).pixel(i, j)
                },
        ensures
            forall|i: int, j: int| on_line(i, j) <==> drawn(i, j, n),
        decreases
                (if rasterizer.state is None {
                    2 * LIMIT + 2
                } else {
                    rasterizer.left(rasterizer.state->0.major_axis as int) + 1
                }),
    {
        let ghost before = rasterizer;
        match rasterizer.next_point() {
            Some(point) => {
                proof {
                    sample().lemma_after(n);
                    assert(sample().after(n + 1) == before.stepped());
                    assert(point == sample().after(n + 1).from);
                    assert(LineRasterizer::between(a, point, b, 0));
                    assert(LineRasterizer::between(a, point, b, 1));
                    assert(sample().point(n) == Some(point));
                    assert(passes(n, point.x as int, point.y as int));
                    if n > 0 {
                        before.lemma_stepped(a);
                    } else {
                        assert(span(a, b, major_of(a, b)) <= LIMIT);
                    }
                }
                let color = u32::MAX;
                canvas.set_pixel(point.x as usize, point.y as usize, color);
                proof {
                    assert forall|i: int, j: int| old(canvas).holds(i, j) implies #[trigger] canvas.pixel(
                        i,
                        j,
                    ) == if drawn(i, j, n + 1) {
                        u32::MAX
                    } else {
                        old(canvas).pixel(i, j)
                    } by {
                        if drawn(i, j, n) {
                            let k = choose|k: nat| k < n && #[trigger] passes(k, i, j);
                            assert(k < n + 1 && passes(k, i, j));
                        }
                        if drawn(i, j, n + 1) && !drawn(i, j, n) {
                            let k = choose|k: nat| k < n + 1 && #[trigger] passes(k, i, j);
                            assert(k == n);
                        }
                    }
                    n = n + 1;
                }
            },
            None => {
                proof {
                    assert forall|i: int, j: int| on_line(i, j) implies drawn(i, j, n) by {
                        let k = choose|k: nat| #[trigger] passes(k, i, j);
                        if k >= n {
                            sample().lemma_stays(n, k);
                        }
                    }
                }
                break ;
            },
        }
    }
}

/// Draws the same line on a canvas of any kind.
pub fn draw(canvas: &mut dyn Canvas)
    requires
        forall|i: int, j: int| 0 <= i <= 50 && 0 <= j <= 55 ==> old(canvas).holds(i, j),
    ensures
        forall|i: int, j: int| final(canvas).holds(i, j) == old(canvas).holds(i, j),
        forall|i: int, j: int|
            old(canvas).holds(i, j) ==> #[trigger] final(canvas).pixel(i, j) == if on_line(i, j) {
                u32::MAX
            } else {
                old(canvas).pixel(i, j)
            },
{
    draw_generic(canvas);
}

/// Draws the same line on a canvas in a box.
pub fn draw_boxed(canvas: &mut Box<dyn Canvas>)
    requires
        forall|i: int, j: int| 0 <= i <= 50 && 0 <= j <= 55 ==> old(canvas).holds(i, j),
    ensures
        forall|i: int, j: int| final(canvas).holds(i, j) == old(canvas).holds(i, j),
        forall|i: int, j: int|
            old(canvas).holds(i, j) ==> #[trigger] final(canvas).pixel(i, j) == if on_line(i, j) {
                u32::MAX
            } else {
                old(canvas).pixel(i, j)
            },
{
    draw_generic(&mut **canvas);
}

impl LineRasterizer {
    /// Once a walk hands out no point, it never hands out one again.
    pub proof fn lemma_stays(&self, n: nat, k: nat)
        requires
            self.point(n).is_none(),
            n <= k,
        ensures
            self.point(k).is_none(),
            self.after(k) == self.after(n),
        decreases k - n,
    {
        if k > n {
            self.lemma_stays(n, (k - 1) as nat);
            assert(self.after(k) == self.after((k - 1) as nat).stepped());
        }
    }
}

} // verus!
