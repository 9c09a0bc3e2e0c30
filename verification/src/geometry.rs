//! Screen rectangles and the predicates the layout engine is proved against:
//! containment of a pixel, interval disjointness, and bands of rectangles
//! that tile an area without gap or overlap.

use vstd::prelude::*;

verus! {

/// An axis-aligned pixel region: top-left corner `(x, y)`, extent `w` by `h`.
#[derive(Clone, Copy, PartialEq, Eq, Structural, Debug)]
pub struct Rect {
    pub x: u32,
    pub y: u32,
    pub w: u32,
    pub h: u32,
}

impl Rect {
    /// The far edges stay inside the `u32` coordinate plane.
    pub open spec fn spec_fits(self) -> bool {
        self.x + self.w <= u32::MAX && self.y + self.h <= u32::MAX
    }

    /// The pixel column `px`, row `py` lies inside this rectangle.
    pub open spec fn contains(self, px: int, py: int) -> bool {
        self.x <= px < self.x + self.w && self.y <= py < self.y + self.h
    }

    /// `inner` lies entirely within `self`.
    pub open spec fn encloses(self, inner: Rect) -> bool {
        self.x <= inner.x
            && inner.x + inner.w <= self.x + self.w
            && self.y <= inner.y
            && inner.y + inner.h <= self.y + self.h
    }

    /// The two rectangles share no pixel: they are separated along some axis.
    pub open spec fn disjoint(self, other: Rect) -> bool {
        self.x + self.w <= other.x
            || other.x + other.w <= self.x
            || self.y + self.h <= other.y
            || other.y + other.h <= self.y
    }
}

/// Rectangles separated along an axis have no pixel in common.
pub proof fn lemma_disjoint_no_common_point(a: Rect, b: Rect, px: int, py: int)
    requires
        a.disjoint(b),
    ensures
        !(a.contains(px, py) && b.contains(px, py)),
{
}

/// `bands` cut `area` into horizontal slices: every band spans the full
/// width, the first starts at the top, each further band starts where the
/// previous one ends, and the last ends at the bottom edge.
pub open spec fn rows_tile(area: Rect, bands: Seq<Rect>) -> bool {
    &&& bands.len() > 0
    &&& forall|i: int|
        0 <= i < bands.len() ==> (#[trigger] bands[i]).x == area.x && bands[i].w == area.w
    &&& bands[0].y == area.y
    &&& forall|i: int|
        0 <= i < bands.len() - 1 ==> (#[trigger] bands[i]).y + bands[i].h == bands[i + 1].y
    &&& bands[bands.len() - 1].y + bands[bands.len() - 1].h == area.y + area.h
}

/// `bands` cut `area` into vertical slices, the transpose of `rows_tile`.
pub open spec fn cols_tile(area: Rect, bands: Seq<Rect>) -> bool {
    &&& bands.len() > 0
    &&& forall|i: int|
        0 <= i < bands.len() ==> (#[trigger] bands[i]).y == area.y && bands[i].h == area.h
    &&& bands[0].x == area.x
    &&& forall|i: int|
        0 <= i < bands.len() - 1 ==> (#[trigger] bands[i]).x + bands[i].w == bands[i + 1].x
    &&& bands[bands.len() - 1].x + bands[bands.len() - 1].w == area.x + area.w
}

/// In a row tiling the bands keep their order: band `i` ends no later than
/// band `j` starts, for `i < j`.
pub proof fn lemma_rows_ordered(area: Rect, bands: Seq<Rect>, i: int, j: int)
    requires
        rows_tile(area, bands),
        0 <= i < j < bands.len(),
    ensures
        bands[i].y + bands[i].h <= bands[j].y,
    decreases j - i,
{
    if j == i + 1 {
    } else {
        lemma_rows_ordered(area, bands, i + 1, j);
    }
}

/// In a column tiling the bands keep their order along the x axis.
pub proof fn lemma_cols_ordered(area: Rect, bands: Seq<Rect>, i: int, j: int)
    requires
        cols_tile(area, bands),
        0 <= i < j < bands.len(),
    ensures
        bands[i].x + bands[i].w <= bands[j].x,
    decreases j - i,
{
    if j == i + 1 {
    } else {
        lemma_cols_ordered(area, bands, i + 1, j);
    }
}

/// Distinct bands of a row tiling are disjoint.
pub proof fn lemma_rows_disjoint(area: Rect, bands: Seq<Rect>, i: int, j: int)
    requires
        rows_tile(area, bands),
        0 <= i < bands.len(),
        0 <= j < bands.len(),
        i != j,
    ensures
        bands[i].disjoint(bands[j]),
{
    if i < j {
        lemma_rows_ordered(area, bands, i, j);
    } else {
        lemma_rows_ordered(area, bands, j, i);
    }
}

/// Distinct bands of a column tiling are disjoint.
pub proof fn lemma_cols_disjoint(area: Rect, bands: Seq<Rect>, i: int, j: int)
    requires
        cols_tile(area, bands),
        0 <= i < bands.len(),
        0 <= j < bands.len(),
        i != j,
    ensures
        bands[i].disjoint(bands[j]),
{
    if i < j {
        lemma_cols_ordered(area, bands, i, j);
    } else {
        lemma_cols_ordered(area, bands, j, i);
    }
}

/// Every band of a row tiling lies inside the tiled area.
pub proof fn lemma_rows_enclosed(area: Rect, bands: Seq<Rect>, i: int)
    requires
        rows_tile(area, bands),
        0 <= i < bands.len(),
    ensures
        area.encloses(bands[i]),
{
    if i > 0 {
        lemma_rows_ordered(area, bands, 0, i);
    }
    if i < bands.len() - 1 {
        lemma_rows_ordered(area, bands, i, bands.len() - 1);
    }
}

/// Every band of a column tiling lies inside the tiled area.
pub proof fn lemma_cols_enclosed(area: Rect, bands: Seq<Rect>, i: int)
    requires
        cols_tile(area, bands),
        0 <= i < bands.len(),
    ensures
        area.encloses(bands[i]),
{
    if i > 0 {
        lemma_cols_ordered(area, bands, 0, i);
    }
    if i < bands.len() - 1 {
        lemma_cols_ordered(area, bands, i, bands.len() - 1);
    }
}

/// A pixel of the tiled area falls in some band of a row tiling.
pub proof fn lemma_rows_cover(area: Rect, bands: Seq<Rect>, px: int, py: int) -> (i: int)
    requires
        rows_tile(area, bands),
        area.contains(px, py),
    ensures
        0 <= i < bands.len(),
        bands[i].contains(px, py),
    decreases bands.len(),
{
    if py < bands[0].y + bands[0].h {
        0
    } else {
        let rest = bands.drop_first();
        let sub = Rect {
            x: area.x,
            y: bands[1].y,
            w: area.w,
            h: (area.y + area.h - bands[1].y) as u32,
        };
        assert(rows_tile(sub, rest)) by {
            assert forall|i: int| 0 <= i < rest.len() - 1 implies (#[trigger] rest[i]).y
                + rest[i].h == rest[i + 1].y by {
                assert(bands[i + 1].y + bands[i + 1].h == bands[i + 2].y);
            }
        }
        lemma_rows_ordered(area, bands, 0, 1);
        let r = lemma_rows_cover(sub, rest, px, py);
        r + 1
    }
}

/// A pixel of the tiled area falls in some band of a column tiling.
pub proof fn lemma_cols_cover(area: Rect, bands: Seq<Rect>, px: int, py: int) -> (i: int)
    requires
        cols_tile(area, bands),
        area.contains(px, py),
    ensures
        0 <= i < bands.len(),
        bands[i].contains(px, py),
    decreases bands.len(),
{
    if px < bands[0].x + bands[0].w {
        0
    } else {
        let rest = bands.drop_first();
        let sub = Rect {
            x: bands[1].x,
            y: area.y,
            w: (area.x + area.w - bands[1].x) as u32,
            h: area.h,
        };
        assert(cols_tile(sub, rest)) by {
            assert forall|i: int| 0 <= i < rest.len() - 1 implies (#[trigger] rest[i]).x
                + rest[i].w == rest[i + 1].x by {
                assert(bands[i + 1].x + bands[i + 1].w == bands[i + 2].x);
            }
        }
        lemma_cols_ordered(area, bands, 0, 1);
        let r = lemma_cols_cover(sub, rest, px, py);
        r + 1
    }
}

} // verus!
