//! The walk along a line in space, from one point to another, in steps of
//! one along the axis on which the two points are furthest apart.

use crate::raster::vec3::{lemma_same_point, Vec3};
use vstd::prelude::*;

verus! {

/// The longest span along an axis with which every walk goes through:
/// what adds up along an axis on such a walk is a number that an `i32` can
/// hold.
pub const LIMIT: i32 = 0x3fff_ffff;

/// How far apart `from` and `to` are along axis `i`.
pub open spec fn span(from: Vec3, to: Vec3, i: int) -> int {
    if to.at(i) >= from.at(i) {
        to.at(i) - from.at(i)
    } else {
        from.at(i) - to.at(i)
    }
}

/// The step that leads from the coordinate `a` towards the coordinate `b`.
pub open spec fn toward(a: int, b: int) -> int {
    if b > a {
        1
    } else {
        -1
    }
}

/// The first of the axes along which `from` and `to` are furthest apart.
pub open spec fn major_of(from: Vec3, to: Vec3) -> int {
    if span(from, to, 0) >= span(from, to, 1) && span(from, to, 0) >= span(from, to, 2) {
        0
    } else if span(from, to, 1) >= span(from, to, 2) {
        1
    } else {
        2
    }
}

/// `x` is a number that an `i32` can hold.
pub open spec fn fits(x: int) -> bool {
    i32::MIN <= x <= i32::MAX
}

/// What the walk keeps from one step to the next: the direction of a step
/// along each axis, what has added up along each axis since the walk last
/// stepped along it, and the axis along which every step goes.
#[derive(Debug, Copy, Clone)]
pub struct RasterState {
    pub step: Vec3,
    pub d: Vec3,
    pub major_axis: usize,
}

/// A walk from `from` to `to`. `from` is the point at which the walk stands.
/// Before its first point the walk has no state.
#[derive(Debug, Copy, Clone)]
pub struct LineRasterizer {
    pub from: Vec3,
    pub to: Vec3,
    pub state: Option<RasterState>,
}

impl LineRasterizer {
    /// The state in which a walk from `from` to `to` begins.
    pub open spec fn first_state(from: Vec3, to: Vec3) -> RasterState {
        RasterState {
            step: Vec3 {
                x: toward(from.at(0), to.at(0)) as i32,
                y: toward(from.at(1), to.at(1)) as i32,
                z: toward(from.at(2), to.at(2)) as i32,
            },
            d: Vec3 { x: 0, y: 0, z: 0 },
            major_axis: major_of(from, to) as usize,
        }
    }

    /// What is left of the walk along axis `i`.
    pub open spec fn left(&self, i: int) -> int {
        span(self.from, self.to, i)
    }

    /// The walk, in the state `s`, takes its next step along axis `i` too:
    /// `i` is the major axis, or enough has added up along `i`.
    pub open spec fn steps_along(&self, s: RasterState, i: int) -> bool {
        i == s.major_axis || (self.left(i) > 0 && s.d.at(i) + self.left(i) >= self.left(
            s.major_axis as int,
        ))
    }

    /// Coordinate `i` of the point that the walk comes to next.
    pub open spec fn next_at(&self, s: RasterState, i: int) -> int {
        if self.steps_along(s, i) {
            self.from.at(i) + s.step.at(i)
        } else {
            self.from.at(i)
        }
    }

    /// What has added up along axis `i` after the next step.
    pub open spec fn next_d(&self, s: RasterState, i: int) -> int {
        if i == s.major_axis || self.left(i) <= 0 {
            s.d.at(i)
        } else if self.steps_along(s, i) {
            s.d.at(i) + self.left(i) - self.left(s.major_axis as int)
        } else {
            s.d.at(i) + self.left(i)
        }
    }

    /// The walk after `next_point`: begun, where it had not; as it was, where
    /// it stands at its end; one step further on, else.
    pub open spec fn stepped(&self) -> LineRasterizer {
        match self.state {
            None => LineRasterizer {
                from: self.from,
                to: self.to,
                state: Some(Self::first_state(self.from, self.to)),
            },
            Some(s) => if self.from == self.to {
                *self
            } else {
                LineRasterizer {
                    from: Vec3 {
                        x: self.next_at(s, 0) as i32,
                        y: self.next_at(s, 1) as i32,
                        z: self.next_at(s, 2) as i32,
                    },
                    to: self.to,
                    state: Some(
                        RasterState {
                            step: s.step,
                            d: Vec3 {
                                x: self.next_d(s, 0) as i32,
                                y: self.next_d(s, 1) as i32,
                                z: self.next_d(s, 2) as i32,
                            },
                            major_axis: s.major_axis,
                        },
                    ),
                }
            },
        }
    }

    /// The point that `next_point` hands out: none, where the walk has begun
    /// and stands at its end; else the point at which the walk stands after
    /// the call.
    pub open spec fn yields(&self) -> Option<Vec3> {
        if self.state is Some && self.from == self.to {
            None
        } else {
            Some(self.stepped().from)
        }
    }

    /// Every number that the next call of `next_point` computes is one that
    /// an `i32` can hold. For a walk that has not begun these are the spans
    /// along the three axes. For a walk on its way they are the spans, the
    /// next coordinate along the major axis, and along every other axis with
    /// something left what has added up with what is left, and the next
    /// coordinate if the walk steps along that axis. A walk at its end
    /// computes nothing.
    pub open spec fn can_step(&self) -> bool {
        match self.state {
            None => forall|i: int| 0 <= i < 3 ==> #[trigger] self.left(i) <= i32::MAX,
            Some(s) => self.from == self.to || {
                &&& s.major_axis < 3
                &&& forall|i: int| 0 <= i < 3 ==> #[trigger] self.left(i) <= i32::MAX
                &&& fits(self.from.at(s.major_axis as int) + s.step.at(s.major_axis as int))
                &&& forall|i: int|
                    0 <= i < 3 && i != s.major_axis && #[trigger] self.left(i) > 0 ==> fits(
                        s.d.at(i) + self.left(i),
                    ) && (self.steps_along(s, i) ==> fits(self.from.at(i) + s.step.at(i)))
            },
        }
    }

    /// The walk is on its course: once it has begun, no axis has more left
    /// than the major axis, every step along an axis with something left
    /// leads towards `to`, and nothing negative has added up.
    pub open spec fn on_course(&self) -> bool {
        self.state matches Some(s) ==> {
            &&& s.major_axis < 3
            &&& forall|i: int| 0 <= i < 3 ==> #[trigger] self.left(i) <= self.left(s.major_axis as int)
            &&& forall|i: int|
                0 <= i < 3 && #[trigger] self.left(i) > 0 ==> s.step.at(i) == toward(
                    self.from.at(i),
                    self.to.at(i),
                )
            &&& forall|i: int| 0 <= i < 3 ==> 0 <= #[trigger] s.d.at(i)
        }
    }

    /// A walk from `from` to `to` that has not begun.
    pub fn new(from: Vec3, to: Vec3) -> (r: LineRasterizer)
        ensures
            r.from == from,
            r.to == to,
            r.state is None,
    {
        LineRasterizer { from: from, to: to, state: None }
    }

    /// Where nothing is left along the major axis, the walk stands at its
    /// end.
    pub proof fn lemma_arrived(&self)
        requires
            self.on_course(),
            self.state is Some,
            self.left(self.state->0.major_axis as int) == 0,
        ensures
            self.from == self.to,
    {
        assert forall|i: int| 0 <= i < 3 implies self.from.at(i) == self.to.at(i) by {
            assert(self.left(i) <= 0);
        }
        lemma_same_point(self.from, self.to);
    }

    /// Coordinate `i` of `v` lies between those of `a` and `b`.
    pub open spec fn between(a: Vec3, v: Vec3, b: Vec3, i: int) -> bool {
        span(a, v, i) + span(v, b, i) == span(a, b, i)
    }

    /// What a step does along one axis `j` of a walk that is on its course
    /// and does not stand at its end.
    proof fn lemma_axis(&self, j: int, anchor: Vec3)
        requires
            self.on_course(),
            self.can_step(),
            self.state is Some,
            self.left(self.state->0.major_axis as int) > 0,
            0 <= j < 3,
        ensures
            ({
                let s = self.state->0;
                let next = self.next_at(s, j);
                let rest = if self.to.at(j) >= next {
                    self.to.at(j) - next
                } else {
                    next - self.to.at(j)
                };
                &&& fits(next)
                &&& fits(self.next_d(s, j))
                &&& 0 <= self.next_d(s, j)
                &&& self.next_d(s, j) <= s.d.at(j) || self.next_d(s, j) < self.left(
                    s.major_axis as int,
                )
                &&& rest == if self.steps_along(s, j) {
                    self.left(j) - 1
                } else {
                    self.left(j)
                }
                &&& 0 <= rest <= self.left(s.major_axis as int) - 1
                &&& rest > 0 ==> s.step.at(j) == toward(next, self.to.at(j))
                &&& -1 <= next - self.from.at(j) <= 1
                &&& j == s.major_axis ==> next != self.from.at(j)
                &&& span(anchor, self.from, j) + span(self.from, self.to, j) == span(
                    anchor,
                    self.to,
                    j,
                ) ==> (if next >= anchor.at(j) {
                    next - anchor.at(j)
                } else {
                    anchor.at(j) - next
                }) + rest == span(anchor, self.to, j)
            }),
    {
        let s = self.state->0;
        let major = s.major_axis as int;
        assert(self.from != self.to) by {
            if self.from == self.to {
                assert(self.left(major) == 0);
            }
        }
        assert(0 <= s.d.at(j));
        assert(self.left(j) <= self.left(major));
        assert(self.left(major) <= i32::MAX);
        if self.left(j) > 0 {
            assert(s.step.at(j) == toward(self.from.at(j), self.to.at(j)));
        }
    }

    /// What a step makes of axis `j` of a walk that is on its course and
    /// does not stand at its end.
    proof fn lemma_axis_stepped(&self, j: int, anchor: Vec3)
        requires
            self.on_course(),
            self.can_step(),
            self.state is Some,
            self.from != self.to,
            0 <= j < 3,
        ensures
            ({
                let s = self.state->0;
                let major = s.major_axis as int;
                let next = self.stepped();
                let t = next.state->0;
                &&& next.to == self.to
                &&& next.state is Some
                &&& t.major_axis == s.major_axis
                &&& t.step == s.step
                &&& self.left(major) > 0
                &&& next.left(j) <= self.left(j)
                &&& next.left(j) <= self.left(major) - 1
                &&& j == major ==> next.left(j) + 1 == self.left(j)
                &&& next.left(j) > 0 ==> t.step.at(j) == toward(next.from.at(j), next.to.at(j))
                &&& 0 <= t.d.at(j)
                &&& t.d.at(j) <= s.d.at(j) || t.d.at(j) < self.left(major)
                &&& Self::between(anchor, self.from, self.to, j) ==> Self::between(
                    anchor,
                    next.from,
                    self.to,
                    j,
                )
                &&& span(self.from, next.from, j) <= 1
                &&& j == major ==> span(self.from, next.from, j) == 1
            }),
    {
        let s = self.state->0;
        let major = s.major_axis as int;
        let next = self.stepped();
        if self.left(major) <= 0 {
            assert(self.left(major) == 0);
            self.lemma_arrived();
        }
        self.lemma_axis(j, anchor);
        assert(next.from.at(j) == self.next_at(s, j));
        assert(next.state->0.d.at(j) == self.next_d(s, j));
    }

    /// A step keeps a walk on its course: it leaves along no axis more than
    /// there was, and along the major axis one less, unless the walk stands
    /// at its end; it goes one along the major axis and one at most along
    /// each other axis; and it leaves the walk between any point it was
    /// beyond and its end.
    pub proof fn lemma_stepped(&self, anchor: Vec3)
        requires
            self.on_course(),
            self.can_step(),
        ensures
            self.stepped().on_course(),
            self.stepped().to == self.to,
            self.stepped().state is Some,
            self.state is Some ==> self.stepped().state->0.major_axis
                == self.state->0.major_axis,
            self.state is None ==> self.stepped().from == self.from,
            self.state is Some && self.from != self.to ==> self.stepped().left(
                self.state->0.major_axis as int,
            ) + 1 == self.left(self.state->0.major_axis as int),
            forall|i: int| 0 <= i < 3 ==> #[trigger] self.stepped().left(i) <= self.left(i),
            forall|i: int|
                0 <= i < 3 && Self::between(anchor, self.from, self.to, i) ==> #[trigger] Self::between(
                    anchor,
                    self.stepped().from,
                    self.to,
                    i,
                ),
            self.state matches Some(s) ==> forall|i: int|
                0 <= i < 3 ==> #[trigger] self.stepped().state->0.d.at(i) <= s.d.at(i)
                    || self.stepped().state->0.d.at(i) < self.left(s.major_axis as int),
            self.state is Some && self.from != self.to ==> span(
                self.from,
                self.stepped().from,
                self.state->0.major_axis as int,
            ) == 1,
            forall|i: int| 0 <= i < 3 ==> #[trigger] span(self.from, self.stepped().from, i) <= 1,
    {
        if self.state is None {
            self.lemma_begun();
        } else if self.from != self.to {
            let s = self.state->0;
            let major = s.major_axis as int;
            let next = self.stepped();
            let t = next.state->0;
            self.lemma_axis_stepped(major, anchor);
            assert forall|i: int| 0 <= i < 3 implies #[trigger] next.left(i) <= self.left(i)
                && next.left(i) <= next.left(major) by {
                self.lemma_axis_stepped(i, anchor);
            }
            assert forall|i: int| 0 <= i < 3 && #[trigger] next.left(i) > 0 implies t.step.at(i)
                == toward(next.from.at(i), next.to.at(i)) by {
                self.lemma_axis_stepped(i, anchor);
            }
            assert forall|i: int| 0 <= i < 3 implies 0 <= #[trigger] t.d.at(i) && (t.d.at(i)
                <= s.d.at(i) || t.d.at(i) < self.left(major)) by {
                self.lemma_axis_stepped(i, anchor);
            }
            assert forall|i: int|
                0 <= i < 3 && Self::between(anchor, self.from, self.to, i) implies #[trigger] Self::between(
                anchor,
                next.from,
                self.to,
                i,
            ) by {
                self.lemma_axis_stepped(i, anchor);
            }
            assert forall|i: int| 0 <= i < 3 implies #[trigger] span(self.from, next.from, i)
                <= 1 by {
                self.lemma_axis_stepped(i, anchor);
            }
        }
    }

    /// The first call leaves a walk where it stood and on its course.
    proof fn lemma_begun(&self)
        requires
            self.state is None,
        ensures
            self.stepped().on_course(),
            self.stepped().from == self.from,
            self.stepped().to == self.to,
            self.stepped().state is Some,
    {
        let next = self.stepped();
        let first = Self::first_state(self.from, self.to);
        assert forall|i: int| 0 <= i < 3 implies #[trigger] next.left(i) <= next.left(
            first.major_axis as int,
        ) by {}
        assert forall|i: int| 0 <= i < 3 implies first.step.at(i) == toward(
            self.from.at(i),
            self.to.at(i),
        ) by {}
        assert forall|i: int| 0 <= i < 3 implies 0 <= #[trigger] first.d.at(i) by {}
    }

    /// Whether every number that the next call of `next_point` computes is
    /// one that an `i32` can hold.
    pub fn ready(&self) -> (r: bool)
        ensures
            r == self.can_step(),
    {
        let most = i32::MAX as i64;
        let least = i32::MIN as i64;
        let mut spans = true;
        let mut i: usize = 0;
        while i < 3
            invariant
                0 <= i <= 3,
                most == i32::MAX,
                spans == (forall|j: int| 0 <= j < i ==> #[trigger] self.left(j) <= i32::MAX),
            decreases 3 - i,
        {
            let gap = self.to[i] as i64 - self.from[i] as i64;
            let gap = if gap < 0 { -gap } else { gap };
            assert(gap == self.left(i as int));
            if gap > most {
                spans = false;
            }
            i = i + 1;
        }
        match self.state {
            None => spans,
            Some(s) => {
                if self.from == self.to {
                    return true;
                }
                if s.major_axis >= 3 || !spans {
                    return false;
                }
                let major = s.major_axis;
                let moved = self.from[major] as i64 + s.step[major] as i64;
                if moved < least || moved > most {
                    return false;
                }
                let base = self.to[major] as i64 - self.from[major] as i64;
                let base = if base < 0 { -base } else { base };
                let mut i: usize = 0;
                while i < 3
                    invariant
                        0 <= i <= 3,
                        most == i32::MAX,
                        least == i32::MIN,
                        major == s.major_axis,
                        major < 3,
                        self.state == Some(s),
                        base == self.left(major as int),
                        forall|j: int|
                            0 <= j < i && j != s.major_axis && #[trigger] self.left(j) > 0 ==> fits(
                                s.d.at(j) + self.left(j),
                            ) && (self.steps_along(s, j) ==> fits(self.from.at(j) + s.step.at(j))),
                    decreases 3 - i,
                {
                    let gap = self.to[i] as i64 - self.from[i] as i64;
                    let gap = if gap < 0 { -gap } else { gap };
                    assert(gap == self.left(i as int));
                    if i != major && gap > 0 {
                        let sum = s.d[i] as i64 + gap;
                        if sum < least || sum > most {
                            return false;
                        }
                        if sum >= base {
                            let next = self.from[i] as i64 + s.step[i] as i64;
                            if next < least || next > most {
                                return false;
                            }
                        }
                    }
                    i = i + 1;
                }
                true
            },
        }
    }

    /// The next point of the walk: the point it starts from, when it has not
    /// begun; `None`, when it stands at its end; else the point one step
    /// further along the major axis, and along every other axis on which
    /// enough has added up.
    pub fn next_point(&mut self) -> (r: Option<Vec3>)
        requires
            old(self).can_step(),
        ensures
            *final(self) == old(self).stepped(),
            r == old(self).yields(),
    {
        match self.state {
            None => {
                let mut state = RasterState {
                    step: Vec3 { x: 0, y: 0, z: 0 },
                    d: Vec3 { x: 0, y: 0, z: 0 },
                    major_axis: 0,
                };
                let mut max: i32 = 0;
                let mut i: usize = 0;
                while i < 3
                    invariant
                        0 <= i <= 3,
                        forall|j: int| 0 <= j < 3 ==> #[trigger] self.left(j) <= i32::MAX,
                        state.d == (Vec3 { x: 0, y: 0, z: 0 }),
                        state.major_axis < 3,
                        0 <= max,
                        i == 0 ==> state.major_axis == 0 && max == 0,
                        i > 0 ==> state.major_axis < i && max == self.left(state.major_axis as int),
                        forall|j: int| 0 <= j < i ==> #[trigger] self.left(j) <= max,
                        forall|j: int| 0 <= j < state.major_axis ==> #[trigger] self.left(j) < max,
                        forall|j: int|
                            0 <= j < i ==> #[trigger] state.step.at(j) == toward(
                                self.from.at(j),
                                self.to.at(j),
                            ),
                    decreases 3 - i,
                {
                    assert(self.left(i as int) <= i32::MAX);
                    let d = self.to[i] - self.from[i];
                    state.step.set(i, if d > 0 { 1 } else { -1 });
                    let d = if d < 0 { -d } else { d };
                    assert(d == self.left(i as int));
                    if d > max {
                        max = d;
                        state.major_axis = i;
                    }
                    i = i + 1;
                }
                proof {
                    let first = Self::first_state(self.from, self.to);
                    assert(self.left(0) <= max && self.left(1) <= max && self.left(2) <= max);
                    assert(state.major_axis == major_of(self.from, self.to)) by {
                        if state.major_axis == 1 {
                            assert(self.left(0) < max);
                        } else if state.major_axis == 2 {
                            assert(self.left(0) < max);
                            assert(self.left(1) < max);
                        }
                    }
                    assert(state.step.at(0) == first.step.at(0));
                    assert(state.step.at(1) == first.step.at(1));
                    assert(state.step.at(2) == first.step.at(2));
                    lemma_same_point(state.step, first.step);
                }
                self.state = Some(state);
                Some(self.from)
            },
            Some(state) => {
                if self.from == self.to {
                    None
                } else {
                    let ghost before = *self;
                    let from = self.from;
                    let to = self.to;
                    let major = state.major_axis;
                    let mut state = state;
                    proof {
                        assert(before.left(major as int) <= i32::MAX);
                    }
                    let base = to[major] - from[major];
                    let rs_base = if base < 0 { -base } else { base };
                    self.from.set(major, from[major] + state.step[major]);
                    let mut i: usize = 0;
                    while i < 3
                        invariant
                            0 <= i <= 3,
                            before.can_step(),
                            before.state matches Some(s) && s.step == state.step && s.major_axis
                                == major,
                            before.from == from,
                            before.to == to,
                            from != to,
                            self.to == to,
                            major < 3,
                            rs_base == before.left(major as int),
                            state.step == before.state->0.step,
                            state.major_axis == major,
                            forall|j: int|
                                0 <= j < i ==> #[trigger] self.from.at(j) == before.next_at(
                                    before.state->0,
                                    j,
                                ),
                            forall|j: int|
                                i <= j < 3 ==> #[trigger] self.from.at(j) == if j == major {
                                    before.next_at(before.state->0, j)
                                } else {
                                    from.at(j)
                                },
                            forall|j: int|
                                0 <= j < i ==> #[trigger] state.d.at(j) == before.next_d(
                                    before.state->0,
                                    j,
                                ),
                            forall|j: int|
                                i <= j < 3 ==> #[trigger] state.d.at(j) == before.state->0.d.at(j),
                        decreases 3 - i,
                    {
                        assert(before.left(i as int) <= i32::MAX);
                        let gap = to[i] - from[i];
                        let rs = if gap < 0 { -gap } else { gap };
                        assert(rs == before.left(i as int));
                        if rs > 0 && i != major {
                            assert(fits(before.state->0.d.at(i as int) + before.left(i as int)));
                            let mut sum = state.d[i] + rs;
                            if sum >= rs_base {
                                assert(before.steps_along(before.state->0, i as int));
                                sum = sum - rs_base;
                                self.from.set(i, self.from[i] + state.step[i]);
                            }
                            state.d.set(i, sum);
                        }
                        i = i + 1;
                    }
                    self.state = Some(state);
                    proof {
                        let s = before.state->0;
                        let next = before.stepped();
                        assert(next.state->0.d.at(0) == before.next_d(s, 0));
                        assert(next.state->0.d.at(1) == before.next_d(s, 1));
                        assert(next.state->0.d.at(2) == before.next_d(s, 2));
                        lemma_same_point(state.d, next.state->0.d);
                        assert(next.from.at(0) == before.next_at(s, 0));
                        assert(next.from.at(1) == before.next_at(s, 1));
                        assert(next.from.at(2) == before.next_at(s, 2));
                        lemma_same_point(self.from, next.from);
                    }
                    Some(self.from)
                }
            },
        }
    }
}

} // verus!
