use std::collections::HashMap;
use vstd::prelude::*;
use crate::expr::{ExprType, LambdaExpr};
use crate::numerals::{church_body, church_numeral, F_ID, X_ID};

verus! {

broadcast use vstd::std_specs::hash::group_hash_axioms;

/// Spacing between stalks, binder bars and crossbars.
pub const PADDING: i64 = 10;

/// Bound on every coordinate of a laid-out diagram.
pub const COORD_LIMIT: i64 = 1_000_000_000_000_000_000;

#[derive(Clone, Copy, Debug, PartialEq, Eq, Structural)]
pub enum Direction {
    Vertical,
    Horizontal,
}

/// A segment: its origin, its length and its axis.
#[derive(Clone, Copy, Debug)]
pub struct Line {
    pub origin: (i64, i64),
    pub length: i64,
    pub direction: Direction,
}

/// A segment with unbounded coordinates, as contracts speak of it.
pub struct Segment {
    pub x: int,
    pub y: int,
    pub length: int,
    pub direction: Direction,
}

impl View for Line {
    type V = Segment;

    open spec fn view(&self) -> Segment {
        Segment {
            x: self.origin.0 as int,
            y: self.origin.1 as int,
            length: self.length as int,
            direction: self.direction,
        }
    }
}

/// The far end of a segment.
pub open spec fn seg_end(s: Segment) -> (int, int) {
    match s.direction {
        Direction::Vertical => (s.x, s.y + s.length),
        Direction::Horizontal => (s.x + s.length, s.y),
    }
}

/// The end with the largest horizontal coordinate, the first one on a tie,
/// or the origin when no end lies right of it.
pub open spec fn rightmost_of(s: Seq<Segment>) -> (int, int)
    decreases s.len(),
{
    if s.len() == 0 {
        (0, 0)
    } else {
        let prev = rightmost_of(s.drop_last());
        let e = seg_end(s.last());
        if e.0 > prev.0 {
            e
        } else {
            prev
        }
    }
}

/// The end with the largest vertical coordinate, the first one on a tie,
/// or the origin when no end lies below it.
pub open spec fn bottommost_of(s: Seq<Segment>) -> (int, int)
    decreases s.len(),
{
    if s.len() == 0 {
        (0, 0)
    } else {
        let prev = bottommost_of(s.drop_last());
        let e = seg_end(s.last());
        if e.1 > prev.1 {
            e
        } else {
            prev
        }
    }
}

/// Every segment moved by `(dx, dy)`.
pub open spec fn shifted(s: Seq<Segment>, dx: int, dy: int) -> Seq<Segment> {
    s.map_values(|g: Segment| Segment { x: g.x + dx, y: g.y + dy, length: g.length, direction: g.direction })
}

/// Origins and ends of all segments lie in `[0, w] x [0, h]`.
pub open spec fn bounded(s: Seq<Segment>, w: int, h: int) -> bool {
    forall|i: int|
        0 <= i < s.len() ==> {
            let g = #[trigger] s[i];
            &&& 0 <= g.x <= w
            &&& 0 <= g.y <= h
            &&& 0 <= seg_end(g).0 <= w
            &&& 0 <= seg_end(g).1 <= h
        }
}

/// An ordered collection of segments.
pub struct Diagram {
    pub lines: Vec<Line>,
}

impl View for Diagram {
    type V = Seq<Segment>;

    open spec fn view(&self) -> Seq<Segment> {
        self.lines@.map_values(|l: Line| l@)
    }
}

/// Where each binder in scope stands (the depth of its bar) and the depth
/// of the next binder.
pub struct Passthrough {
    pub var_positions: HashMap<usize, i64>,
    pub next_position: i64,
}

/// Every variable occurrence of `t` is bound inside `t` or has a key in `dom`.
pub open spec fn in_scope(t: LambdaExpr, dom: Set<usize>) -> bool
    decreases t,
{
    match t {
        LambdaExpr::Var(id) => dom.contains(id),
        LambdaExpr::Abs(id, body) => in_scope(*body, dom.insert(id)),
        LambdaExpr::App(f, a) => in_scope(*f, dom) && in_scope(*a, dom),
    }
}

/// The layout of `t` under binder positions `pos`, at depth `next`.
pub open spec fn layout(t: LambdaExpr, pos: Map<usize, i64>, next: int) -> Seq<Segment>
    decreases t,
{
    match t {
        LambdaExpr::Var(id) => seq![
            Segment {
                x: PADDING as int,
                y: pos[id] as int,
                length: next - pos[id],
                direction: Direction::Vertical,
            },
        ],
        LambdaExpr::Abs(id, body) => {
            let child = layout(*body, pos.insert(id, next as i64), next + PADDING);
            let clearance = if body.spec_expr_type() == ExprType::Abs { 0 } else { PADDING as int };
            child.push(
                Segment {
                    x: 0,
                    y: next,
                    length: rightmost_of(child).0 + clearance,
                    direction: Direction::Horizontal,
                },
            )
        },
        LambdaExpr::App(f, a) => {
            let left = layout(*f, pos, next);
            let right = shifted(layout(*a, pos, next), rightmost_of(left).0 + PADDING, 0);
            let pa = bottommost_of(left);
            let pb = bottommost_of(right);
            let cross = (if pa.1 >= pb.1 { pa.1 } else { pb.1 }) + PADDING;
            left + right + seq![
                Segment {
                    x: pa.0,
                    y: pa.1,
                    length: cross - pa.1 + PADDING,
                    direction: Direction::Vertical,
                },
                Segment { x: pb.0, y: pb.1, length: cross - pb.1, direction: Direction::Vertical },
                Segment {
                    x: pa.0,
                    y: cross,
                    length: pb.0 - pa.0,
                    direction: Direction::Horizontal,
                },
            ]
        },
    }
}

proof fn lemma_extents_bounded(s: Seq<Segment>, w: int, h: int)
    requires
        bounded(s, w, h),
        w >= 0,
        h >= 0,
    ensures
        0 <= rightmost_of(s).0 <= w,
        0 <= rightmost_of(s).1 <= h,
        0 <= bottommost_of(s).0 <= w,
        0 <= bottommost_of(s).1 <= h,
    decreases s.len(),
{
    if s.len() > 0 {
        assert(bounded(s.drop_last(), w, h)) by {
            assert forall|i: int| 0 <= i < s.drop_last().len() implies #[trigger] s.drop_last()[i]
                == s[i] by {}
        }
        lemma_extents_bounded(s.drop_last(), w, h);
        assert(s.last() == s[s.len() - 1]);
    }
}

impl Line {
    /// The far end of the segment.
    pub fn endpoint(&self) -> (r: (i64, i64))
        requires
            -COORD_LIMIT <= seg_end(self@).0 <= COORD_LIMIT,
            -COORD_LIMIT <= seg_end(self@).1 <= COORD_LIMIT,
        ensures
            r.0 as int == seg_end(self@).0,
            r.1 as int == seg_end(self@).1,
    {
        match self.direction {
            Direction::Vertical => (self.origin.0, self.origin.1 + self.length),
            Direction::Horizontal => (self.origin.0 + self.length, self.origin.1),
        }
    }
}

/// All ends lie within the coordinate bound.
pub open spec fn ends_fit(s: Seq<Segment>) -> bool {
    forall|i: int|
        0 <= i < s.len() ==> {
            &&& -COORD_LIMIT <= #[trigger] seg_end(s[i]).0 <= COORD_LIMIT
            &&& -COORD_LIMIT <= seg_end(s[i]).1 <= COORD_LIMIT
        }
}

impl Diagram {
    /// Whether every end lies within the coordinate bound.
    pub fn ends_in_range(&self) -> (r: bool)
        ensures
            r == ends_fit(self@),
    {
        let mut i: usize = 0;
        while i < self.lines.len()
            invariant
                i <= self.lines@.len(),
                forall|j: int| 0 <= j < i ==> {
                    &&& -COORD_LIMIT <= #[trigger] seg_end(self@[j]).0 <= COORD_LIMIT
                    &&& -COORD_LIMIT <= seg_end(self@[j]).1 <= COORD_LIMIT
                },
            decreases self.lines@.len() - i,
        {
            let line = self.lines[i];
            assert(self@[i as int] == line@);
            let x = line.origin.0 as i128;
            let y = line.origin.1 as i128;
            let (ex, ey) = match line.direction {
                Direction::Vertical => (x, y + line.length as i128),
                Direction::Horizontal => (x + line.length as i128, y),
            };
            let limit = COORD_LIMIT as i128;
            assert(seg_end(self@[i as int]) == (ex as int, ey as int));
            if ex < -limit || ex > limit || ey < -limit || ey > limit {
                return false;
            }
            i = i + 1;
        }
        true
    }

    /// The end furthest right (see `rightmost_of`).
    pub fn rightmost(&self) -> (r: (i64, i64))
        requires
            ends_fit(self@),
        ensures
            r.0 as int == rightmost_of(self@).0,
            r.1 as int == rightmost_of(self@).1,
    {
        let mut largest_x: i64 = 0;
        let mut y: i64 = 0;
        let mut i: usize = 0;
        while i < self.lines.len()
            invariant
                i <= self.lines@.len(),
                ends_fit(self@),
                (largest_x as int, y as int) == rightmost_of(self@.take(i as int)),
            decreases self.lines@.len() - i,
        {
            proof {
                assert(self@.take(i + 1).drop_last() =~= self@.take(i as int));
                assert(self@[i as int] == self.lines@[i as int]@);
            }
            let e = self.lines[i].endpoint();
            if e.0 > largest_x {
                largest_x = e.0;
                y = e.1;
            }
            i = i + 1;
        }
        proof {
            assert(self@.take(i as int) =~= self@);
        }
        (largest_x, y)
    }

    /// The end furthest down (see `bottommost_of`).
    pub fn bottommost(&self) -> (r: (i64, i64))
        requires
            ends_fit(self@),
        ensures
            r.0 as int == bottommost_of(self@).0,
            r.1 as int == bottommost_of(self@).1,
    {
        let mut largest_y: i64 = 0;
        let mut x: i64 = 0;
        let mut i: usize = 0;
        while i < self.lines.len()
            invariant
                i <= self.lines@.len(),
                ends_fit(self@),
                (x as int, largest_y as int) == bottommost_of(self@.take(i as int)),
            decreases self.lines@.len() - i,
        {
            proof {
                assert(self@.take(i + 1).drop_last() =~= self@.take(i as int));
                assert(self@[i as int] == self.lines@[i as int]@);
            }
            let e = self.lines[i].endpoint();
            if e.1 > largest_y {
                largest_y = e.1;
                x = e.0;
            }
            i = i + 1;
        }
        proof {
            assert(self@.take(i as int) =~= self@);
        }
        (x, largest_y)
    }

    /// Translates every segment by `v`.
    pub fn shift(&mut self, v: (i64, i64))
        requires
            forall|i: int|
                0 <= i < old(self)@.len() ==> {
                    &&& i64::MIN <= #[trigger] old(self)@[i].x + v.0 <= i64::MAX
                    &&& i64::MIN <= old(self)@[i].y + v.1 <= i64::MAX
                },
        ensures
            final(self)@ == shifted(old(self)@, v.0 as int, v.1 as int),
    {
        let mut i: usize = 0;
        while i < self.lines.len()
            invariant
                i <= self.lines@.len(),
                self.lines@.len() == old(self).lines@.len(),
                forall|j: int|
                    0 <= j < old(self)@.len() ==> {
                        &&& i64::MIN <= #[trigger] old(self)@[j].x + v.0 <= i64::MAX
                        &&& i64::MIN <= old(self)@[j].y + v.1 <= i64::MAX
                    },
                forall|j: int| 0 <= j < i ==> #[trigger] self@[j] == shifted(old(self)@, v.0 as int, v.1 as int)[j],
                forall|j: int| i <= j < self.lines@.len() ==> #[trigger] self.lines@[j] == old(self).lines@[j],
            decreases self.lines@.len() - i,
        {
            let mut line = self.lines[i];
            proof {
                assert(line == old(self).lines@[i as int]);
                assert(old(self)@[i as int] == line@);
                let g = old(self)@[i as int];
                assert(i64::MIN <= g.x + v.0 <= i64::MAX);
                assert(i64::MIN <= g.y + v.1 <= i64::MAX);
            }
            line.origin = (line.origin.0 + v.0, line.origin.1 + v.1);
            let ghost prev = self@;
            self.lines.set(i, line);
            proof {
                let target = shifted(old(self)@, v.0 as int, v.1 as int);
                assert forall|j: int| 0 <= j < i + 1 implies #[trigger] self@[j] == target[j] by {
                    if j < i {
                        assert(self@[j] == prev[j]);
                    } else {
                        assert(self@[j] == line@);
                    }
                }
            }
            i = i + 1;
        }
        proof {
            assert(self@ =~= shifted(old(self)@, v.0 as int, v.1 as int));
        }
    }

    /// Appends the segments of `other`.
    pub fn merge(&mut self, other: Diagram)
        ensures
            final(self)@ == old(self)@ + other@,
    {
        let ghost added = other@;
        let mut other = other;
        self.lines.append(&mut other.lines);
        proof {
            assert(self@ =~= old(self)@ + added);
        }
    }

    /// Appends one segment.
    pub fn add_line(&mut self, line: Line)
        ensures
            final(self)@ == old(self)@.push(line@),
    {
        self.lines.push(line);
        proof {
            assert(self@ =~= old(self)@.push(line@));
        }
    }

    /// Appends segments in order.
    pub fn add_lines(&mut self, lines: Vec<Line>)
        ensures
            final(self)@ == old(self)@ + lines@.map_values(|l: Line| l@),
    {
        let mut i: usize = 0;
        while i < lines.len()
            invariant
                i <= lines@.len(),
                self@ == old(self)@ + lines@.take(i as int).map_values(|l: Line| l@),
            decreases lines@.len() - i,
        {
            self.add_line(lines[i]);
            i = i + 1;
            proof {
                assert(lines@.take(i as int).map_values(|l: Line| l@) =~= lines@.take(i - 1).map_values(
                    |l: Line| l@,
                ).push(lines@[i - 1]@));
            }
        }
        proof {
            assert(lines@.take(i as int) =~= lines@);
        }
    }
}

/// Every recorded position lies in `[0, next]`.
pub open spec fn positions_within(pos: Map<usize, i64>, next: int) -> bool {
    forall|k: usize| pos.contains_key(k) ==> 0 <= #[trigger] pos[k] <= next
}

proof fn lemma_bounded_fits(s: Seq<Segment>, w: int, h: int)
    requires
        bounded(s, w, h),
        w <= COORD_LIMIT,
        h <= COORD_LIMIT,
    ensures
        ends_fit(s),
{
    assert forall|i: int| 0 <= i < s.len() implies {
        &&& -COORD_LIMIT <= #[trigger] seg_end(s[i]).0 <= COORD_LIMIT
        &&& -COORD_LIMIT <= seg_end(s[i]).1 <= COORD_LIMIT
    } by {
        let g = s[i];
    }
}

proof fn lemma_bounded_concat(s: Seq<Segment>, t: Seq<Segment>, w: int, h: int)
    requires
        bounded(s, w, h),
        bounded(t, w, h),
    ensures
        bounded(s + t, w, h),
{
    assert forall|i: int| 0 <= i < (s + t).len() implies {
        let g = #[trigger] (s + t)[i];
        &&& 0 <= g.x <= w
        &&& 0 <= g.y <= h
        &&& 0 <= seg_end(g).0 <= w
        &&& 0 <= seg_end(g).1 <= h
    } by {
        if i < s.len() {
            assert((s + t)[i] == s[i]);
        } else {
            assert((s + t)[i] == t[i - s.len()]);
        }
    }
}

proof fn lemma_bounded_shift(s: Seq<Segment>, w: int, h: int, dx: int)
    requires
        bounded(s, w, h),
        dx >= 0,
    ensures
        bounded(shifted(s, dx, 0), w + dx, h),
{
    assert forall|i: int| 0 <= i < shifted(s, dx, 0).len() implies {
        let g = #[trigger] shifted(s, dx, 0)[i];
        &&& 0 <= g.x <= w + dx
        &&& 0 <= g.y <= h
        &&& 0 <= seg_end(g).0 <= w + dx
        &&& 0 <= seg_end(g).1 <= h
    } by {
        let g = s[i];
        assert(seg_end(g).0 <= w);
    }
}

proof fn lemma_bounded_weaken(s: Seq<Segment>, w: int, h: int, w2: int, h2: int)
    requires
        bounded(s, w, h),
        w <= w2,
        h <= h2,
    ensures
        bounded(s, w2, h2),
{
    assert forall|i: int| 0 <= i < s.len() implies {
        let g = #[trigger] s[i];
        &&& 0 <= g.x <= w2
        &&& 0 <= g.y <= h2
        &&& 0 <= seg_end(g).0 <= w2
        &&& 0 <= seg_end(g).1 <= h2
    } by {
        let g = s[i];
    }
}

proof fn lemma_rightmost_attained(s: Seq<Segment>)
    ensures
        rightmost_of(s).0 >= 0,
        forall|i: int| 0 <= i < s.len() ==> rightmost_of(s).0 >= seg_end(#[trigger] s[i]).0,
        rightmost_of(s).0 == 0 || exists|i: int|
            0 <= i < s.len() && rightmost_of(s).0 == seg_end(#[trigger] s[i]).0,
    decreases s.len(),
{
    if s.len() > 0 {
        let d = s.drop_last();
        lemma_rightmost_attained(d);
        assert forall|i: int| 0 <= i < s.len() implies rightmost_of(s).0 >= seg_end(#[trigger] s[i]).0 by {
            if i < d.len() {
                assert(s[i] == d[i]);
            }
        }
        if rightmost_of(s).0 != 0 {
            if seg_end(s.last()).0 > rightmost_of(d).0 {
                assert(rightmost_of(s).0 == seg_end(s[s.len() - 1]).0);
            } else {
                let i = choose|i: int| 0 <= i < d.len() && rightmost_of(d).0 == seg_end(#[trigger] d[i]).0;
                assert(s[i] == d[i]);
            }
        }
    }
}

proof fn lemma_bottommost_attained(s: Seq<Segment>)
    ensures
        bottommost_of(s).1 >= 0,
        forall|i: int| 0 <= i < s.len() ==> bottommost_of(s).1 >= seg_end(#[trigger] s[i]).1,
        bottommost_of(s).1 == 0 || exists|i: int|
            0 <= i < s.len() && bottommost_of(s).1 == seg_end(#[trigger] s[i]).1,
    decreases s.len(),
{
    if s.len() > 0 {
        let d = s.drop_last();
        lemma_bottommost_attained(d);
        assert forall|i: int| 0 <= i < s.len() implies bottommost_of(s).1 >= seg_end(#[trigger] s[i]).1 by {
            if i < d.len() {
                assert(s[i] == d[i]);
            }
        }
        if bottommost_of(s).1 != 0 {
            if seg_end(s.last()).1 > bottommost_of(d).1 {
                assert(bottommost_of(s).1 == seg_end(s[s.len() - 1]).1);
            } else {
                let i = choose|i: int| 0 <= i < d.len() && bottommost_of(d).1 == seg_end(#[trigger] d[i]).1;
                assert(s[i] == d[i]);
            }
        }
    }
}

/// The layout of the numeral body `church_body(n)` inside `λf.λx.`.
pub open spec fn numeral_body_layout(n: nat) -> Seq<Segment> {
    layout(church_body(n), Map::<usize, i64>::empty().insert(F_ID, 0).insert(X_ID, 10), 20)
}

/// The layout of the Church numeral of `n` in the empty context.
pub open spec fn church_layout(n: nat) -> Seq<Segment> {
    layout(church_numeral(n), Map::<usize, i64>::empty(), 0)
}

proof fn lemma_numeral_body_grows(n: nat)
    ensures
        rightmost_of(numeral_body_layout(n)).0 <= rightmost_of(numeral_body_layout(n + 1)).0,
        bottommost_of(numeral_body_layout(n)).1 <= bottommost_of(numeral_body_layout(n + 1)).1,
{
    let pos = Map::<usize, i64>::empty().insert(F_ID, 0).insert(X_ID, 10);
    let small = numeral_body_layout(n);
    let left = layout(LambdaExpr::Var(F_ID), pos, 20);
    assert(pos[F_ID] == 0);
    assert(left.len() == 1);
    assert(seg_end(left[0]).0 == 10);
    assert(rightmost_of(left) == seg_end(left[0])) by {
        assert(left.drop_last() =~= Seq::<Segment>::empty());
        assert(rightmost_of(Seq::<Segment>::empty()) == (0int, 0int));
        assert(left.last() == left[0]);
    }
    let dx = rightmost_of(left).0 + PADDING;
    assert(dx == 20);
    let right = shifted(small, dx, 0);
    let big = numeral_body_layout(n + 1);
    assert(church_body(n + 1) == LambdaExpr::App(Box::new(LambdaExpr::Var(F_ID)), Box::new(church_body(n))));
    let tail = big.subrange(1 + right.len() as int, big.len() as int);
    assert(big =~= left + right + tail);
    lemma_rightmost_attained(small);
    lemma_rightmost_attained(big);
    lemma_bottommost_attained(small);
    lemma_bottommost_attained(big);
    if rightmost_of(small).0 != 0 {
        let i = choose|i: int| 0 <= i < small.len() && rightmost_of(small).0 == seg_end(#[trigger] small[i]).0;
        assert(big[1 + i] == right[i]);
    }
    if bottommost_of(small).1 != 0 {
        let i = choose|i: int| 0 <= i < small.len() && bottommost_of(small).1 == seg_end(#[trigger] small[i]).1;
        assert(big[1 + i] == right[i]);
    }
}

proof fn lemma_church_layout_extents(n: nat)
    ensures
        rightmost_of(church_layout(n)).0 == rightmost_of(numeral_body_layout(n)).0 + PADDING,
        bottommost_of(church_layout(n)).1 == if bottommost_of(numeral_body_layout(n)).1 >= 10 {
            bottommost_of(numeral_body_layout(n)).1
        } else {
            10
        },
{
    let body = numeral_body_layout(n);
    let pos1 = Map::<usize, i64>::empty().insert(F_ID, 0);
    let inner = LambdaExpr::Abs(X_ID, Box::new(church_body(n)));
    let mid = layout(inner, pos1, 10);
    let bar_x = Segment {
        x: 0,
        y: 10,
        length: rightmost_of(body).0 + PADDING,
        direction: Direction::Horizontal,
    };
    lemma_rightmost_attained(body);
    lemma_bottommost_attained(body);
    assert(church_body(n).spec_expr_type() != ExprType::Abs) by {
        if n > 0 {
            assert(church_body(n) == LambdaExpr::App(Box::new(LambdaExpr::Var(F_ID)), Box::new(church_body((n - 1) as nat))));
        }
    }
    assert(mid == body.push(bar_x));
    assert(mid.drop_last() =~= body);
    let bar_f = Segment {
        x: 0,
        y: 0,
        length: rightmost_of(mid).0,
        direction: Direction::Horizontal,
    };
    assert(mid.last() == bar_x);
    assert(bottommost_of(mid) == (if seg_end(bar_x).1 > bottommost_of(body).1 {
        seg_end(bar_x)
    } else {
        bottommost_of(body)
    }));
    assert(church_layout(n) == mid.push(bar_f));
    assert(mid.push(bar_f).drop_last() =~= mid);
    assert(mid.push(bar_f).last() == bar_f);
    assert(bottommost_of(mid.push(bar_f)) == (if seg_end(bar_f).1 > bottommost_of(mid).1 {
        seg_end(bar_f)
    } else {
        bottommost_of(mid)
    }));
}

/// Laying out Church numerals of growing `n`: the right extent and the
/// bottom extent of the diagram never shrink.
pub proof fn lemma_church_extents_monotone(n: nat, m: nat)
    requires
        n <= m,
    ensures
        rightmost_of(church_layout(n)).0 <= rightmost_of(church_layout(m)).0,
        bottommost_of(church_layout(n)).1 <= bottommost_of(church_layout(m)).1,
    decreases m,
{
    if n < m {
        lemma_church_extents_monotone(n, (m - 1) as nat);
        lemma_numeral_body_grows((m - 1) as nat);
        lemma_church_layout_extents((m - 1) as nat);
        lemma_church_layout_extents(m);
    }
}

impl Passthrough {
    /// The empty context: no binder in scope, next depth zero.
    pub fn top() -> (r: Passthrough)
        ensures
            r.var_positions@ == Map::<usize, i64>::empty(),
            r.next_position == 0,
    {
        Passthrough { var_positions: HashMap::new(), next_position: 0 }
    }
}

/// Largest term `diagram_of` lays out.
pub const DIAGRAM_SIZE_LIMIT: u64 = 50_000_000_000_000_000;

/// Whether every variable occurrence of `t` is bound within `t` or by one of
/// `binders`.
fn is_scoped(t: &LambdaExpr, binders: &mut Vec<usize>) -> (r: bool)
    ensures
        r == in_scope(*t, old(binders)@.to_set()),
        final(binders)@ == old(binders)@,
    decreases t,
{
    match t {
        LambdaExpr::Var(id) => {
            let mut i: usize = 0;
            while i < binders.len()
                invariant
                    i <= binders@.len(),
                    binders@ == old(binders)@,
                    *t == LambdaExpr::Var(*id),
                    forall|j: int| 0 <= j < i ==> binders@[j] != *id,
                decreases binders@.len() - i,
            {
                if binders[i] == *id {
                    assert(binders@[i as int] == *id);
                    assert(binders@.contains(*id));
                    assert(old(binders)@.to_set().contains(*id));
                    return true;
                }
                i = i + 1;
            }
            assert(!binders@.to_set().contains(*id));
            false
        },
        LambdaExpr::Abs(id, body) => {
            let ghost before = binders@;
            binders.push(*id);
            proof {
                before.lemma_push_to_set_commute(*id);
            }
            let r = is_scoped(&**body, binders);
            binders.pop();
            proof {
                assert(binders@ =~= before);
            }
            r
        },
        LambdaExpr::App(f, a) => {
            let left = is_scoped(&**f, binders);
            let right = is_scoped(&**a, binders);
            left && right
        },
    }
}

/// The diagram of a closed term in the empty context; none when a variable
/// is free or the term is larger than `DIAGRAM_SIZE_LIMIT`.
pub fn diagram_of(t: &LambdaExpr) -> (r: Option<Diagram>)
    ensures
        r is Some <==> (in_scope(*t, Set::<usize>::empty()) && t.size() <= DIAGRAM_SIZE_LIMIT),
        r is Some ==> r->0@ == layout(*t, Map::<usize, i64>::empty(), 0) && ends_fit(r->0@),
{
    let mut binders: Vec<usize> = Vec::new();
    assert(binders@.to_set() =~= Set::<usize>::empty());
    if !is_scoped(t, &mut binders) {
        return None;
    }
    if t.size_capped(DIAGRAM_SIZE_LIMIT) > DIAGRAM_SIZE_LIMIT {
        return None;
    }
    let top = Passthrough::top();
    assert(top.var_positions@.dom() =~= Set::<usize>::empty());
    let d = construct_diagram(t, &top);
    proof {
        lemma_bounded_fits(d@, 10 * t.size() as int, 20 * t.size() as int);
    }
    Some(d)
}

/// Lays out `expr` as a Tromp diagram under the binder positions of `p`.
#[verifier::rlimit(40)]
pub fn construct_diagram(expr: &LambdaExpr, p: &Passthrough) -> (r: Diagram)
    requires
        in_scope(*expr, p.var_positions@.dom()),
        positions_within(p.var_positions@, p.next_position as int),
        0 <= p.next_position,
        p.next_position + 20 * expr.size() as int <= COORD_LIMIT,
    ensures
        r@ == layout(*expr, p.var_positions@, p.next_position as int),
        bounded(r@, 10 * expr.size() as int, p.next_position + 20 * expr.size() as int),
    decreases expr,
{
    let next = p.next_position;
    match expr {
        LambdaExpr::Var(id) => {
            let y: i64 = match p.var_positions.get(id) {
                Some(y) => *y,
                None => {
                    return Diagram { lines: Vec::new() };
                },
            };
            let mut d = Diagram { lines: Vec::new() };
            d.add_line(Line { origin: (PADDING, y), length: next - y, direction: Direction::Vertical });
            proof {
                assert(d@ =~= layout(*expr, p.var_positions@, next as int));
            }
            d
        },
        LambdaExpr::Abs(id, body) => {
            let mut positions = p.var_positions.clone();
            positions.insert(*id, next);
            let inner = Passthrough { var_positions: positions, next_position: next + PADDING };
            proof {
                assert(positions@.dom() =~= p.var_positions@.dom().insert(*id));
                assert(positions_within(positions@, next + PADDING));
            }
            let mut child = construct_diagram(&**body, &inner);
            let ghost sb = body.size() as int;
            proof {
                lemma_bounded_fits(child@, 10 * sb, next + PADDING + 20 * sb);
                lemma_extents_bounded(child@, 10 * sb, next + PADDING + 20 * sb);
            }
            let clearance: i64 = if body.expr_type() == ExprType::Abs { 0 } else { PADDING };
            let right = child.rightmost();
            let bar = Line {
                origin: (0, next),
                length: right.0 + clearance,
                direction: Direction::Horizontal,
            };
            let ghost before = child@;
            child.add_line(bar);
            proof {
                lemma_bounded_weaken(before, 10 * sb, next + PADDING + 20 * sb, 10 * expr.size() as int, next + 20 * expr.size() as int);
                assert(bounded(seq![bar@], 10 * expr.size() as int, next + 20 * expr.size() as int));
                lemma_bounded_concat(before, seq![bar@], 10 * expr.size() as int, next + 20 * expr.size() as int);
                assert(before.push(bar@) =~= before + seq![bar@]);
            }
            child
        },
        LambdaExpr::App(f, a) => {
            let ghost sa = f.size() as int;
            let ghost sb = a.size() as int;
            let mut left = construct_diagram(&**f, p);
            let mut right = construct_diagram(&**a, p);
            proof {
                lemma_bounded_fits(left@, 10 * sa, next + 20 * sa);
                lemma_extents_bounded(left@, 10 * sa, next + 20 * sa);
            }
            let ra = left.rightmost();
            let dx = ra.0 + PADDING;
            let ghost raw = right@;
            proof {
                assert forall|i: int| 0 <= i < right@.len() implies {
                    &&& i64::MIN <= #[trigger] right@[i].x + dx <= i64::MAX
                    &&& i64::MIN <= right@[i].y + 0 <= i64::MAX
                } by {
                    let g = right@[i];
                }
            }
            right.shift((dx, 0));
            proof {
                lemma_bounded_shift(raw, 10 * sb, next + 20 * sb, dx as int);
                lemma_bounded_weaken(right@, 10 * sb + dx, next + 20 * sb, 10 * expr.size() as int, next + 20 * expr.size() as int);
                lemma_bounded_fits(right@, 10 * expr.size() as int, next + 20 * expr.size() as int);
                lemma_extents_bounded(right@, 10 * sb + dx, next + 20 * sb);
                lemma_extents_bounded(left@, 10 * sa, next + 20 * sa);
            }
            let pa = left.bottommost();
            let pb = right.bottommost();
            let cross: i64 = (if pa.1 >= pb.1 { pa.1 } else { pb.1 }) + PADDING;
            let ghost lv = left@;
            let ghost rv = right@;
            left.merge(right);
            let stalk_a = Line {
                origin: pa,
                length: cross - pa.1 + PADDING,
                direction: Direction::Vertical,
            };
            let stalk_b = Line { origin: pb, length: cross - pb.1, direction: Direction::Vertical };
            let bar = Line {
                origin: (pa.0, cross),
                length: pb.0 - pa.0,
                direction: Direction::Horizontal,
            };
            let added = vec![stalk_a, stalk_b, bar];
            left.add_lines(added);
            proof {
                let tail = seq![stalk_a@, stalk_b@, bar@];
                assert(added@.map_values(|l: Line| l@) =~= tail);
                assert(left@ =~= lv + rv + tail);
                assert(left@ =~= layout(*expr, p.var_positions@, next as int));
                let w = 10 * expr.size() as int;
                let h = next + 20 * expr.size() as int;
                lemma_bounded_weaken(lv, 10 * sa, next + 20 * sa, w, h);
                assert(expr.size() == 1 + sa + sb);
                assert(0 <= pa.0 <= 10 * sa && 0 <= pa.1 <= next + 20 * sa);
                assert(0 <= pb.0 <= w && 0 <= pb.1 <= next + 20 * sb);
                assert(cross + PADDING <= h);
                assert forall|i: int| 0 <= i < tail.len() implies {
                    let g = #[trigger] tail[i];
                    &&& 0 <= g.x <= w
                    &&& 0 <= g.y <= h
                    &&& 0 <= seg_end(g).0 <= w
                    &&& 0 <= seg_end(g).1 <= h
                } by {
                    if i == 0 {
                        assert(tail[i] == stalk_a@);
                    } else if i == 1 {
                        assert(tail[i] == stalk_b@);
                    } else {
                        assert(tail[i] == bar@);
                    }
                }
                lemma_bounded_concat(lv, rv, w, h);
                lemma_bounded_concat(lv + rv, tail, w, h);
            }
            left
        },
    }
}

} // verus!
