use vstd::prelude::*;
use crate::coord::Coord;

verus! {

/// An axis-aligned box with closed edges, from `min` to `max` inclusive.
#[derive(Clone, Copy, Debug, PartialEq, Eq, Structural)]
pub struct Region {
    pub min: Coord,
    pub max: Coord,
}

/// Floor of the midpoint of `lo` and `hi`, for `lo <= hi`.
pub open spec fn mid(lo: int, hi: int) -> int {
    lo + (hi - lo) / 2
}

impl Region {
    /// The corners are ordered on both axes.
    pub open spec fn wf(self) -> bool {
        self.min.le(self.max)
    }

    pub open spec fn has_point(self, p: Coord) -> bool {
        self.min.le(p) && p.le(self.max)
    }

    /// Closed intervals overlap on both axes (touching edges count).
    pub open spec fn overlaps(self, o: Region) -> bool {
        self.min.x <= o.max.x && o.min.x <= self.max.x && self.min.y <= o.max.y && o.min.y
            <= self.max.y
    }

    /// `o` lies entirely inside `self`.
    pub open spec fn encloses(self, o: Region) -> bool {
        self.min.le(o.min) && o.max.le(self.max)
    }

    pub open spec fn mid_x(self) -> int {
        mid(self.min.x as int, self.max.x as int)
    }

    pub open spec fn mid_y(self) -> int {
        mid(self.min.y as int, self.max.y as int)
    }

    /// The box spanned by the given bounds.
    pub open spec fn span(x0: int, y0: int, x1: int, y1: int) -> Region {
        Region {
            min: Coord { x: x0 as i32, y: y0 as i32 },
            max: Coord { x: x1 as i32, y: y1 as i32 },
        }
    }

    /// Quadrant `i` of the box: north-west, north-east, south-west, south-east,
    /// with `y` growing northwards. Neighbouring quadrants share the midline.
    pub open spec fn quadrant(self, i: int) -> Region {
        let (x0, x1, y0, y1) = (
            self.min.x as int,
            self.max.x as int,
            self.min.y as int,
            self.max.y as int,
        );
        let (mx, my) = (self.mid_x(), self.mid_y());
        if i == 0 {
            Region::span(x0, my, mx, y1)
        } else if i == 1 {
            Region::span(mx, my, x1, y1)
        } else if i == 2 {
            Region::span(x0, y0, mx, my)
        } else {
            Region::span(mx, y0, x1, my)
        }
    }

    pub open spec fn grown(self, amount: int) -> Region {
        Region::span(
            self.min.x - amount,
            self.min.y - amount,
            self.max.x + amount,
            self.max.y + amount,
        )
    }

    pub fn new(min: Coord, max: Coord) -> (r: Region)
        ensures
            r.min == min,
            r.max == max,
    {
        Region { min, max }
    }

    pub fn contains(&self, p: &Coord) -> (r: bool)
        ensures
            r == self.has_point(*p),
    {
        self.min.is_le(p) && p.is_le(&self.max)
    }

    pub fn intersects(&self, other: &Region) -> (r: bool)
        ensures
            r == self.overlaps(*other),
    {
        self.min.x <= other.max.x && other.min.x <= self.max.x && self.min.y <= other.max.y
            && other.min.y <= self.max.y
    }

    /// Whether `other` lies entirely inside this box.
    pub fn contains_region(&self, other: &Region) -> (r: bool)
        ensures
            r == self.encloses(*other),
    {
        self.min.is_le(&other.min) && other.max.is_le(&self.max)
    }

    /// The box pushed outwards by `amount` on all four sides.
    pub fn with_margin(&self, amount: i32) -> (r: Region)
        requires
            self.wf(),
            amount >= 0,
            i32::MIN <= self.min.x - amount,
            i32::MIN <= self.min.y - amount,
            self.max.x + amount <= i32::MAX,
            self.max.y + amount <= i32::MAX,
        ensures
            r == self.grown(amount as int),
            r.wf(),
    {
        Region {
            min: Coord { x: self.min.x - amount, y: self.min.y - amount },
            max: Coord { x: self.max.x + amount, y: self.max.y + amount },
        }
    }

    /// The four quadrants, split at the floored midpoint.
    pub fn split_into_quadrants(&self) -> (r: [Region; 4])
        requires
            self.wf(),
        ensures
            forall|i: int| 0 <= i < 4 ==> r@[i] == self.quadrant(i),
            forall|i: int| 0 <= i < 4 ==> (#[trigger] r@[i]).wf() && self.encloses(r@[i]),
    {
        let mx = (self.min.x as i64 + (self.max.x as i64 - self.min.x as i64) / 2) as i32;
        let my = (self.min.y as i64 + (self.max.y as i64 - self.min.y as i64) / 2) as i32;
        let (x0, x1, y0, y1) = (self.min.x, self.max.x, self.min.y, self.max.y);
        [
            Region { min: Coord { x: x0, y: my }, max: Coord { x: mx, y: y1 } },
            Region { min: Coord { x: mx, y: my }, max: Coord { x: x1, y: y1 } },
            Region { min: Coord { x: x0, y: y0 }, max: Coord { x: mx, y: my } },
            Region { min: Coord { x: mx, y: y0 }, max: Coord { x: x1, y: my } },
        ]
    }
}

/// Every point of a box lies in one of its quadrants, and every quadrant lies
/// inside the box: the split loses nothing and adds nothing.
pub proof fn lemma_quadrants_cover(r: Region, p: Coord)
    requires
        r.wf(),
    ensures
        r.has_point(p) <==> exists|i: int| 0 <= i < 4 && #[trigger] r.quadrant(i).has_point(p),
        forall|i: int| 0 <= i < 4 ==> r.encloses(#[trigger] r.quadrant(i)),
{
    if r.has_point(p) {
        let i = if p.y >= r.mid_y() {
            if p.x <= r.mid_x() { 0int } else { 1int }
        } else {
            if p.x <= r.mid_x() { 2int } else { 3int }
        };
        assert(r.quadrant(i).has_point(p));
    }
}

/// A box that meets `q` still meets it once enlarged.
pub proof fn lemma_enclosing_overlaps(outer: Region, inner: Region, q: Region)
    requires
        outer.encloses(inner),
        inner.overlaps(q),
    ensures
        outer.overlaps(q),
{
}

} // verus!
