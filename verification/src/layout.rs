//! The layout engine: a pure map from an ordered window list and a screen
//! rectangle to placements. Three algorithms are offered — a side stack, its
//! horizontal reflection, and a bottom stack — plus a gap wrapper. Every
//! algorithm is proved to emit one placement per window, in order, with the
//! rectangles pairwise disjoint and, for at least one window, exactly
//! covering the screen.

use vstd::prelude::*;
use vstd::arithmetic::div_mod::{lemma_div_nonincreasing, lemma_div_pos_is_pos};
use crate::geometry::{
    cols_tile, lemma_cols_cover, lemma_cols_disjoint, lemma_cols_enclosed, lemma_rows_cover,
    lemma_rows_disjoint, lemma_rows_enclosed, rows_tile, Rect,
};

verus! {

/// Ratios are fixed-point per-mille values: 600 stands for 60% of the axis.
pub const RATIO_UNIT: u32 = 1000;

/// The smallest share the main region may take.
pub const RATIO_MIN: u32 = 50;

/// The largest share the main region may take.
pub const RATIO_MAX: u32 = 950;

/// Which of the three stack arrangements a layout uses.
#[derive(Clone, Copy, PartialEq, Eq, Structural, Debug)]
pub enum LayoutKind {
    /// Main column on the left, remaining windows stacked on the right.
    SideStack,
    /// The side stack mirrored: main column on the right.
    ReflectedSideStack,
    /// Main row on top, remaining windows side by side below.
    BottomStack,
}

/// A runtime parameter message addressed to the active layout.
#[derive(Clone, Copy, PartialEq, Eq, Structural, Debug)]
pub enum LayoutMessage {
    /// Grow (positive) or shrink (negative) the number of main windows.
    IncMain(i32),
    /// Grow the main region's share by the layout's step.
    ExpandMain,
    /// Shrink the main region's share by the layout's step.
    ShrinkMain,
}

/// A layout as a value: algorithm choice and its parameters. Cloning one
/// into a stack and cycling it has no side effects.
#[derive(Clone, Copy, PartialEq, Eq, Structural, Debug)]
pub struct Layout {
    pub kind: LayoutKind,
    /// How many windows at most go to the main region.
    pub max_main: u32,
    /// Main region share of the split axis, in per mille.
    pub ratio: u32,
    /// Per-mille change a resize message applies to `ratio`.
    pub ratio_step: u32,
    /// Margin stripped from the screen edge before placing, in pixels.
    pub outer_px: u32,
    /// Margin stripped from each placement afterwards, in pixels.
    pub inner_px: u32,
}

/// Clamps a configured ratio into the share bounds.
pub open spec fn clamp_ratio(ratio: u32) -> u32 {
    if ratio < RATIO_MIN {
        RATIO_MIN
    } else if ratio > RATIO_MAX {
        RATIO_MAX
    } else {
        ratio
    }
}

/// Clamps a mathematical integer into the `u32` range.
pub open spec fn clamp_u32(v: int) -> u32 {
    if v < 0 {
        0u32
    } else if v > u32::MAX {
        u32::MAX
    } else {
        v as u32
    }
}

/// Clamps a requested main-window count into `[0, window_count]` (and the
/// `u32` range the field can store).
pub open spec fn clamp_main(v: int, window_count: int) -> u32 {
    if v > window_count {
        clamp_u32(window_count)
    } else {
        clamp_u32(v)
    }
}

impl Layout {
    /// The ratio stays inside its clamping bounds.
    pub open spec fn wf(self) -> bool {
        RATIO_MIN <= self.ratio <= RATIO_MAX
    }

    /// Builds a layout without gap margins, clamping the configured ratio
    /// into its bounds.
    pub fn new(kind: LayoutKind, max_main: u32, ratio: u32, ratio_step: u32) -> (r: Layout)
        ensures
            r == (Layout {
                kind,
                max_main,
                ratio: clamp_ratio(ratio),
                ratio_step,
                outer_px: 0u32,
                inner_px: 0u32,
            }),
            r.wf(),
    {
        let clamped: u32 = if ratio < RATIO_MIN {
            RATIO_MIN
        } else if ratio > RATIO_MAX {
            RATIO_MAX
        } else {
            ratio
        };
        Layout { kind, max_main, ratio: clamped, ratio_step, outer_px: 0, inner_px: 0 }
    }

    /// The layout after `msg` is applied to it while `window_count` windows
    /// are visible: `IncMain` moves `max_main` by its argument, clamped to
    /// `[0, window_count]`; the resize messages move `ratio` one step,
    /// saturating at [`RATIO_MIN`]/[`RATIO_MAX`].
    pub open spec fn spec_handle(self, msg: LayoutMessage, window_count: int) -> Layout {
        match msg {
            LayoutMessage::IncMain(d) => Layout {
                max_main: clamp_main(self.max_main + d, window_count),
                ..self
            },
            LayoutMessage::ExpandMain => Layout {
                ratio: if self.ratio + self.ratio_step > RATIO_MAX {
                    RATIO_MAX
                } else {
                    (self.ratio + self.ratio_step) as u32
                },
                ..self
            },
            LayoutMessage::ShrinkMain => Layout {
                ratio: if self.ratio < RATIO_MIN + self.ratio_step {
                    RATIO_MIN
                } else {
                    (self.ratio - self.ratio_step) as u32
                },
                ..self
            },
        }
    }

    /// Applies a parameter message to this layout alone; `window_count` is
    /// how many windows the workspace being arranged holds, the upper clamp
    /// for `IncMain`.
    pub fn handle_message(&mut self, msg: LayoutMessage, window_count: usize)
        requires
            old(self).wf(),
        ensures
            *final(self) == old(self).spec_handle(msg, window_count as int),
            final(self).wf(),
    {
        match msg {
            LayoutMessage::IncMain(d) => {
                let bound: u64 = if (window_count as u64) <= (u32::MAX as u64) {
                    window_count as u64
                } else {
                    u32::MAX as u64
                };
                let wanted: u64 = if d >= 0 {
                    (self.max_main as u64) + (d as u64)
                } else {
                    let sub64: u64 = (-(d as i64)) as u64;
                    if (self.max_main as u64) > sub64 {
                        (self.max_main as u64) - sub64
                    } else {
                        0
                    }
                };
                self.max_main = if wanted > bound {
                    bound as u32
                } else {
                    wanted as u32
                };
            },
            LayoutMessage::ExpandMain => {
                if (self.ratio as u64) + (self.ratio_step as u64) > (RATIO_MAX as u64) {
                    self.ratio = RATIO_MAX;
                } else {
                    self.ratio = self.ratio + self.ratio_step;
                }
            },
            LayoutMessage::ShrinkMain => {
                if (self.ratio as u64) < (RATIO_MIN as u64) + (self.ratio_step as u64) {
                    self.ratio = RATIO_MIN;
                } else {
                    self.ratio = self.ratio - self.ratio_step;
                }
            },
        }
    }
}

/// Growing and then shrinking the main share by the same step restores the
/// original layout, as long as the grown ratio does not hit the upper clamp
/// (at a clamp the ratio saturates instead and the round trip may land on
/// the bound).
pub proof fn lemma_resize_round_trip(l: Layout, window_count: int)
    requires
        l.wf(),
        l.ratio + l.ratio_step <= RATIO_MAX,
    ensures
        l.spec_handle(LayoutMessage::ExpandMain, window_count).spec_handle(
            LayoutMessage::ShrinkMain,
            window_count,
        ) == l,
{
}

/// Shrinking and then growing the main share by the same step restores the
/// original layout, as long as the shrunk ratio does not hit the lower clamp.
pub proof fn lemma_resize_round_trip_rev(l: Layout, window_count: int)
    requires
        l.wf(),
        l.ratio >= RATIO_MIN + l.ratio_step,
    ensures
        l.spec_handle(LayoutMessage::ShrinkMain, window_count).spec_handle(
            LayoutMessage::ExpandMain,
            window_count,
        ) == l,
{
}

/// The horizontal bands `k`-splitting an area yields, from the top: the
/// first band takes the whole share `h / k`, the rest split what remains.
#[verifier::opaque]
pub open spec fn spec_split_rows(area: Rect, k: nat) -> Seq<Rect>
    decreases k,
{
    if k == 0 {
        Seq::<Rect>::empty()
    } else if k == 1 {
        seq![area]
    } else {
        let q = (area.h as int / k as int) as u32;
        let rest = Rect {
            x: area.x,
            y: (area.y + q) as u32,
            w: area.w,
            h: (area.h - q) as u32,
        };
        seq![Rect { x: area.x, y: area.y, w: area.w, h: q }] + spec_split_rows(
            rest,
            (k - 1) as nat,
        )
    }
}

/// The vertical bands `k`-splitting an area yields, from the left.
#[verifier::opaque]
pub open spec fn spec_split_cols(area: Rect, k: nat) -> Seq<Rect>
    decreases k,
{
    if k == 0 {
        Seq::<Rect>::empty()
    } else if k == 1 {
        seq![area]
    } else {
        let q = (area.w as int / k as int) as u32;
        let rest = Rect {
            x: (area.x + q) as u32,
            y: area.y,
            w: (area.w - q) as u32,
            h: area.h,
        };
        seq![Rect { x: area.x, y: area.y, w: q, h: area.h }] + spec_split_cols(
            rest,
            (k - 1) as nat,
        )
    }
}

/// Splits `area` into `k` horizontal bands that tile it, exactly the bands
/// [`spec_split_rows`] names. Each band gets an equal share of the height:
/// every band is `h / k` or one pixel row more.
#[verifier::rlimit(100)]
pub fn split_rows(area: Rect, k: usize) -> (r: Vec<Rect>)
    requires
        area.spec_fits(),
        k >= 1,
    ensures
        r@.len() == k,
        r@ == spec_split_rows(area, k as nat),
        rows_tile(area, r@),
        forall|j: int|
            0 <= j < k ==> area.h as int / k as int <= (#[trigger] r@[j]).h <= area.h as int
                / k as int + 1,
{
    let ghost fair = area.h as int / k as int;
    proof {
        vstd::arithmetic::div_mod::lemma_fundamental_div_mod(area.h as int, k as int);
        assert(k as int * (fair + 1) == k as int * fair + k as int) by (nonlinear_arith);
    }
    let mut out: Vec<Rect> = Vec::new();
    let mut y: u32 = area.y;
    let mut rem: u32 = area.h;
    let mut i: usize = 0;
    proof {
        assert(out@ + spec_split_rows(Rect { x: area.x, y, w: area.w, h: rem }, k as nat)
            =~= spec_split_rows(area, k as nat));
    }
    while i < k
        invariant
            area.spec_fits(),
            1 <= k,
            i <= k,
            out@.len() == i,
            rem <= area.h,
            i == 0 ==> rem == area.h,
            y == area.y + area.h - rem,
            out@ + spec_split_rows(Rect { x: area.x, y, w: area.w, h: rem }, (k - i) as nat)
                == spec_split_rows(area, k as nat),
            fair == area.h as int / k as int,
            (k - i) as int * fair <= rem as int <= (k - i) as int * (fair + 1),
            forall|j: int| 0 <= j < i ==> fair <= (#[trigger] out@[j]).h <= fair + 1,
            forall|j: int| 0 <= j < i ==> (#[trigger] out@[j]).x == area.x && out@[j].w == area.w,
            i > 0 ==> out@[0].y == area.y,
            forall|j: int| 0 <= j < i - 1 ==> (#[trigger] out@[j]).y + out@[j].h == out@[j + 1].y,
            i > 0 ==> out@[i - 1].y + out@[i - 1].h == y,
            i == k ==> rem == 0,
        decreases k - i,
    {
        let ghost d = (k - i) as int;
        let q: u32 = if i + 1 == k {
            proof {
                assert(1int * fair == fair && 1int * (fair + 1) == fair + 1) by (nonlinear_arith);
            }
            rem
        } else {
            let dx: u64 = (k - i) as u64;
            proof {
                lemma_div_nonincreasing(rem as int, d);
                lemma_div_pos_is_pos(rem as int, d);
                lemma_band_share(rem as int, d, fair);
            }
            ((rem as u64) / dx) as u32
        };
        proof {
            lemma_band_step(rem as int, q as int, d, fair);
            reveal_with_fuel(spec_split_rows, 2);
            let cur = Rect { x: area.x, y, w: area.w, h: rem };
            let band = Rect { x: area.x, y, w: area.w, h: q };
            let cur2 = Rect { x: area.x, y: (y + q) as u32, w: area.w, h: (rem - q) as u32 };
            if i + 1 == k {
                assert(spec_split_rows(cur, (k - i) as nat) =~= seq![band]);
                assert(spec_split_rows(cur2, 0nat) =~= Seq::<Rect>::empty());
            } else {
                assert(spec_split_rows(cur, (k - i) as nat) == seq![band] + spec_split_rows(
                    cur2,
                    (k - i - 1) as nat,
                ));
            }
            assert((out@ + seq![band]) + spec_split_rows(cur2, (k - i - 1) as nat) =~= out@ + (
            seq![band] + spec_split_rows(cur2, (k - i - 1) as nat)));
            assert(out@.push(band) =~= out@ + seq![band]);
        }
        out.push(Rect { x: area.x, y, w: area.w, h: q });
        y = y + q;
        rem = rem - q;
        i = i + 1;
    }
    proof {
        reveal_with_fuel(spec_split_rows, 1);
        assert(out@ + Seq::<Rect>::empty() =~= out@);
    }
    out
}

/// A band drawn as `rem / d` from a fair remainder stays within one pixel
/// of the fair share.
proof fn lemma_band_share(rem: int, d: int, fair: int)
    requires
        2 <= d,
        0 <= fair,
        d * fair <= rem <= d * (fair + 1),
    ensures
        fair <= rem / d <= fair + 1,
{
    let e = rem - d * fair;
    assert(d * (fair + 1) == d * fair + d) by (nonlinear_arith);
    if e == d {
        assert(rem == d * (fair + 1)) by (nonlinear_arith)
            requires
                rem == d * fair + e,
                e == d,
                d * (fair + 1) == d * fair + d,
        ;
        vstd::arithmetic::div_mod::lemma_div_multiples_vanish(fair + 1, d);
    } else {
        vstd::arithmetic::div_mod::lemma_div_multiples_vanish_fancy(fair, e, d);
        assert(rem == d * fair + e);
    }
}

/// Taking one band, drawn as the fair share of what is left, off a fair
/// remainder leaves a fair remainder.
proof fn lemma_band_step(rem: int, q: int, d: int, fair: int)
    requires
        1 <= d,
        0 <= fair,
        d * fair <= rem <= d * (fair + 1),
        d == 1 ==> q == rem,
        d >= 2 ==> q == rem / d,
    ensures
        (d - 1) * fair <= rem - q <= (d - 1) * (fair + 1),
{
    assert((d - 1) * fair == d * fair - fair) by (nonlinear_arith);
    assert((d - 1) * (fair + 1) == d * (fair + 1) - (fair + 1)) by (nonlinear_arith);
    if d >= 2 {
        let e = rem - d * fair;
        assert(d * (fair + 1) == d * fair + d) by (nonlinear_arith);
        if e == d {
            assert(rem == d * (fair + 1)) by (nonlinear_arith)
                requires
                    rem == d * fair + e,
                    e == d,
                    d * (fair + 1) == d * fair + d,
            ;
            vstd::arithmetic::div_mod::lemma_div_multiples_vanish(fair + 1, d);
        } else {
            vstd::arithmetic::div_mod::lemma_div_multiples_vanish_fancy(fair, e, d);
            assert(rem == d * fair + e);
        }
    }
}

/// Splits `area` into `k` vertical bands that tile it, the transpose of
/// [`split_rows`]: exactly the bands [`spec_split_cols`] names, every one
/// `w / k` or one pixel column more.
#[verifier::rlimit(100)]
pub fn split_cols(area: Rect, k: usize) -> (r: Vec<Rect>)
    requires
        area.spec_fits(),
        k >= 1,
    ensures
        r@.len() == k,
        r@ == spec_split_cols(area, k as nat),
        cols_tile(area, r@),
        forall|j: int|
            0 <= j < k ==> area.w as int / k as int <= (#[trigger] r@[j]).w <= area.w as int
                / k as int + 1,
{
    let ghost fair = area.w as int / k as int;
    proof {
        vstd::arithmetic::div_mod::lemma_fundamental_div_mod(area.w as int, k as int);
        assert(k as int * (fair + 1) == k as int * fair + k as int) by (nonlinear_arith);
    }
    let mut out: Vec<Rect> = Vec::new();
    let mut x: u32 = area.x;
    let mut rem: u32 = area.w;
    let mut i: usize = 0;
    proof {
        assert(out@ + spec_split_cols(Rect { x, y: area.y, w: rem, h: area.h }, k as nat)
            =~= spec_split_cols(area, k as nat));
    }
    while i < k
        invariant
            area.spec_fits(),
            1 <= k,
            i <= k,
            out@.len() == i,
            rem <= area.w,
            i == 0 ==> rem == area.w,
            x == area.x + area.w - rem,
            out@ + spec_split_cols(Rect { x, y: area.y, w: rem, h: area.h }, (k - i) as nat)
                == spec_split_cols(area, k as nat),
            fair == area.w as int / k as int,
            (k - i) as int * fair <= rem as int <= (k - i) as int * (fair + 1),
            forall|j: int| 0 <= j < i ==> fair <= (#[trigger] out@[j]).w <= fair + 1,
            forall|j: int| 0 <= j < i ==> (#[trigger] out@[j]).y == area.y && out@[j].h == area.h,
            i > 0 ==> out@[0].x == area.x,
            forall|j: int| 0 <= j < i - 1 ==> (#[trigger] out@[j]).x + out@[j].w == out@[j + 1].x,
            i > 0 ==> out@[i - 1].x + out@[i - 1].w == x,
            i == k ==> rem == 0,
        decreases k - i,
    {
        let ghost d = (k - i) as int;
        let q: u32 = if i + 1 == k {
            proof {
                assert(1int * fair == fair && 1int * (fair + 1) == fair + 1) by (nonlinear_arith);
            }
            rem
        } else {
            let dx: u64 = (k - i) as u64;
            proof {
                lemma_div_nonincreasing(rem as int, d);
                lemma_div_pos_is_pos(rem as int, d);
                lemma_band_share(rem as int, d, fair);
            }
            ((rem as u64) / dx) as u32
        };
        proof {
            lemma_band_step(rem as int, q as int, d, fair);
            reveal_with_fuel(spec_split_cols, 2);
            let cur = Rect { x, y: area.y, w: rem, h: area.h };
            let band = Rect { x, y: area.y, w: q, h: area.h };
            let cur2 = Rect { x: (x + q) as u32, y: area.y, w: (rem - q) as u32, h: area.h };
            if i + 1 == k {
                assert(spec_split_cols(cur, (k - i) as nat) =~= seq![band]);
                assert(spec_split_cols(cur2, 0nat) =~= Seq::<Rect>::empty());
            } else {
                assert(spec_split_cols(cur, (k - i) as nat) == seq![band] + spec_split_cols(
                    cur2,
                    (k - i - 1) as nat,
                ));
            }
            assert((out@ + seq![band]) + spec_split_cols(cur2, (k - i - 1) as nat) =~= out@ + (
            seq![band] + spec_split_cols(cur2, (k - i - 1) as nat)));
            assert(out@.push(band) =~= out@ + seq![band]);
        }
        out.push(Rect { x, y: area.y, w: q, h: area.h });
        x = x + q;
        rem = rem - q;
        i = i + 1;
    }
    proof {
        reveal_with_fuel(spec_split_cols, 1);
        assert(out@ + Seq::<Rect>::empty() =~= out@);
    }
    out
}

/// The rectangles tile the screen: they are pairwise disjoint, lie inside
/// it, and together cover every pixel of it.
pub open spec fn tiles(screen: Rect, rects: Seq<Rect>) -> bool {
    &&& forall|i: int| 0 <= i < rects.len() ==> screen.encloses(#[trigger] rects[i])
    &&& forall|i: int, j: int|
        0 <= i < rects.len() && 0 <= j < rects.len() && i != j ==> (#[trigger] rects[i]).disjoint(
            #[trigger] rects[j],
        )
    &&& forall|px: int, py: int|
        screen.contains(px, py) ==> exists|i: int|
            0 <= i < rects.len() && (#[trigger] rects[i]).contains(px, py)
}

/// The share of `len` the main region takes under `ratio` (per mille).
pub open spec fn spec_main_share(len: u32, ratio: u32) -> u32 {
    ((len * ratio) / (RATIO_UNIT as int)) as u32
}

/// How many windows the main region takes: at most `max_main`, at most all.
pub open spec fn main_count(max_main: u32, n: int) -> int {
    if n <= max_main {
        n
    } else {
        max_main as int
    }
}

/// Where each algorithm puts its two regions: the first `m` rectangles
/// span the main column (or row), the rest the stack column (or row), at
/// the positions and sizes the ratio dictates; when one region takes every
/// window it spans the whole screen.
pub open spec fn placed_regions(
    screen: Rect,
    max_main: u32,
    ratio: u32,
    kind: LayoutKind,
    rects: Seq<Rect>,
) -> bool {
    let n = rects.len() as int;
    let m = main_count(max_main, n);
    let mw = spec_main_share(screen.w, ratio) as int;
    let mh = spec_main_share(screen.h, ratio) as int;
    if m == 0 || m == n {
        match kind {
            LayoutKind::BottomStack => forall|i: int|
                0 <= i < n ==> (#[trigger] rects[i]).y == screen.y && rects[i].h == screen.h,
            _ => forall|i: int|
                0 <= i < n ==> (#[trigger] rects[i]).x == screen.x && rects[i].w == screen.w,
        }
    } else {
        match kind {
            LayoutKind::SideStack => (forall|i: int|
                0 <= i < m ==> (#[trigger] rects[i]).x == screen.x && rects[i].w == mw) && (
            forall|i: int|
                m <= i < n ==> (#[trigger] rects[i]).x == screen.x + mw && rects[i].w == screen.w
                    - mw),
            LayoutKind::ReflectedSideStack => (forall|i: int|
                0 <= i < m ==> (#[trigger] rects[i]).x == screen.x + screen.w - mw && rects[i].w
                    == mw) && (forall|i: int|
                m <= i < n ==> (#[trigger] rects[i]).x == screen.x && rects[i].w == screen.w - mw),
            LayoutKind::BottomStack => (forall|i: int|
                0 <= i < m ==> (#[trigger] rects[i]).y == screen.y && rects[i].h == mh) && (
            forall|i: int|
                m <= i < n ==> (#[trigger] rects[i]).y == screen.y + mh && rects[i].h == screen.h
                    - mh),
        }
    }
}

/// The main share never exceeds the whole axis.
proof fn lemma_main_share_bound(len: u32, ratio: u32)
    requires
        ratio <= RATIO_UNIT,
    ensures
        spec_main_share(len, ratio) <= len,
{
    vstd::arithmetic::mul::lemma_mul_inequality(ratio as int, RATIO_UNIT as int, len as int);
    vstd::arithmetic::mul::lemma_mul_is_commutative(len as int, ratio as int);
    vstd::arithmetic::mul::lemma_mul_is_commutative(len as int, RATIO_UNIT as int);
    vstd::arithmetic::div_mod::lemma_div_is_ordered(
        (len * ratio) as int,
        (len * RATIO_UNIT) as int,
        RATIO_UNIT as int,
    );
    vstd::arithmetic::div_mod::lemma_div_multiples_vanish(len as int, RATIO_UNIT as int);
    lemma_div_pos_is_pos((len * ratio) as int, RATIO_UNIT as int);
}

/// The exact side-stack arrangement: the first `m` rectangles are the
/// equal-share row split of the main column, the rest the row split of the
/// stack column; with one region empty, the row split of the whole screen.
pub open spec fn spec_side_stack(screen: Rect, n: int, max_main: u32, ratio: u32) -> Seq<Rect> {
    let m = main_count(max_main, n);
    let mw = spec_main_share(screen.w, ratio);
    if m == 0 || m == n {
        spec_split_rows(screen, n as nat)
    } else {
        spec_split_rows(Rect { x: screen.x, y: screen.y, w: mw, h: screen.h }, m as nat)
            + spec_split_rows(
            Rect {
                x: (screen.x + mw) as u32,
                y: screen.y,
                w: (screen.w - mw) as u32,
                h: screen.h,
            },
            (n - m) as nat,
        )
    }
}

/// The exact bottom-stack arrangement, the transpose of
/// [`spec_side_stack`].
pub open spec fn spec_bottom_stack(screen: Rect, n: int, max_main: u32, ratio: u32) -> Seq<Rect> {
    let m = main_count(max_main, n);
    let mh = spec_main_share(screen.h, ratio);
    if m == 0 || m == n {
        spec_split_cols(screen, n as nat)
    } else {
        spec_split_cols(Rect { x: screen.x, y: screen.y, w: screen.w, h: mh }, m as nat)
            + spec_split_cols(
            Rect {
                x: screen.x,
                y: (screen.y + mh) as u32,
                w: screen.w,
                h: (screen.h - mh) as u32,
            },
            (n - m) as nat,
        )
    }
}

/// The exact rectangle sequence each algorithm produces for `n` windows:
/// the reflected algorithm is, by this definition, the pointwise mirror of
/// the side stack. A layout is a pure value, so arranging twice with equal
/// inputs provably yields equal placements.
pub open spec fn spec_layout_rects(
    kind: LayoutKind,
    screen: Rect,
    n: int,
    max_main: u32,
    ratio: u32,
) -> Seq<Rect> {
    match kind {
        LayoutKind::SideStack => spec_side_stack(screen, n, max_main, ratio),
        LayoutKind::ReflectedSideStack => spec_side_stack(screen, n, max_main, ratio).map(
            |i: int, r: Rect| spec_reflect(screen, r),
        ),
        LayoutKind::BottomStack => spec_bottom_stack(screen, n, max_main, ratio),
    }
}

fn main_share(len: u32, ratio: u32) -> (r: u32)
    requires
        ratio <= RATIO_UNIT,
    ensures
        r == spec_main_share(len, ratio),
        r <= len,
{
    proof {
        lemma_main_share_bound(len, ratio);
        vstd::arithmetic::mul::lemma_mul_upper_bound(
            len as int,
            u32::MAX as int,
            ratio as int,
            RATIO_UNIT as int,
        );
        lemma_div_pos_is_pos((len * ratio) as int, RATIO_UNIT as int);
    }
    (((len as u64) * (ratio as u64)) / (RATIO_UNIT as u64)) as u32
}

/// Side-stack skeleton: main column of `m` bands on the left, the other
/// `n - m` windows stacked in the remainder; with no stack windows the main
/// column takes the whole screen.
#[verifier::rlimit(100)]
fn side_stack_rects(screen: Rect, n: usize, max_main: u32, ratio: u32) -> (r: Vec<Rect>)
    requires
        screen.spec_fits(),
        RATIO_MIN <= ratio <= RATIO_MAX,
        n >= 1,
    ensures
        r@.len() == n,
        r@ == spec_side_stack(screen, n as int, max_main, ratio),
        tiles(screen, r@),
        placed_regions(screen, max_main, ratio, LayoutKind::SideStack, r@),
{
    let m: usize = if (n as u64) <= (max_main as u64) {
        n
    } else {
        max_main as usize
    };
    if m == 0 || m == n {
        let out = split_rows(screen, n);
        proof {
            assert forall|i: int, j: int|
                0 <= i < out@.len() && 0 <= j < out@.len() && i != j implies (
            #[trigger] out@[i]).disjoint(#[trigger] out@[j]) by {
                lemma_rows_disjoint(screen, out@, i, j);
            }
            assert forall|i: int| 0 <= i < out@.len() implies screen.encloses(
                #[trigger] out@[i],
            ) by {
                lemma_rows_enclosed(screen, out@, i);
            }
            assert forall|px: int, py: int| screen.contains(px, py) implies exists|i: int|
                0 <= i < out@.len() && (#[trigger] out@[i]).contains(px, py) by {
                let w = lemma_rows_cover(screen, out@, px, py);
                assert(out@[w].contains(px, py));
            }
        }
        out
    } else {
        let mw: u32 = main_share(screen.w, ratio);
        let main_area = Rect { x: screen.x, y: screen.y, w: mw, h: screen.h };
        let stack_area = Rect { x: screen.x + mw, y: screen.y, w: screen.w - mw, h: screen.h };
        let mut out = split_rows(main_area, m);
        let ghost main_bands = out@;
        let stack_bands = split_rows(stack_area, n - m);
        let mut si: usize = 0;
        while si < stack_bands.len()
            invariant
                out@ == main_bands + stack_bands@.take(si as int),
                si <= stack_bands@.len(),
            decreases stack_bands@.len() - si,
        {
            let b = stack_bands[si];
            out.push(b);
            proof {
                assert(out@ =~= main_bands + stack_bands@.take(si + 1));
            }
            si = si + 1;
        }
        proof {
            assert(stack_bands@.take(si as int) =~= stack_bands@);
            assert(out@ =~= main_bands + stack_bands@);
            let mb = main_bands;
            let sb = stack_bands@;
            let ml = mb.len() as int;
            assert forall|i: int| 0 <= i < out@.len() implies screen.encloses(
                #[trigger] out@[i],
            ) by {
                if i < ml {
                    lemma_rows_enclosed(main_area, mb, i);
                } else {
                    lemma_rows_enclosed(stack_area, sb, i - ml);
                }
            }
            assert forall|i: int, j: int|
                0 <= i < out@.len() && 0 <= j < out@.len() && i != j implies (
            #[trigger] out@[i]).disjoint(#[trigger] out@[j]) by {
                if i < ml && j < ml {
                    lemma_rows_disjoint(main_area, mb, i, j);
                } else if i >= ml && j >= ml {
                    lemma_rows_disjoint(stack_area, sb, i - ml, j - ml);
                } else {
                    lemma_rows_enclosed(main_area, mb, if i < ml { i } else { j });
                    lemma_rows_enclosed(stack_area, sb, if i < ml { j - ml } else { i - ml });
                }
            }
            assert forall|px: int, py: int| screen.contains(px, py) implies exists|i: int|
                0 <= i < out@.len() && (#[trigger] out@[i]).contains(px, py) by {
                if px < main_area.x + main_area.w {
                    let w = lemma_rows_cover(main_area, mb, px, py);
                    assert(out@[w].contains(px, py));
                } else {
                    let w = lemma_rows_cover(stack_area, sb, px, py);
                    assert(out@[ml + w].contains(px, py));
                }
            }
            assert forall|i: int| 0 <= i < ml implies (#[trigger] out@[i]).x == screen.x
                && out@[i].w == mw by {
                assert(out@[i] == mb[i]);
            }
            assert forall|i: int| ml <= i < out@.len() implies (#[trigger] out@[i]).x == screen.x
                + mw && out@[i].w == screen.w - mw by {
                assert(out@[i] == sb[i - ml]);
            }
        }
        out
    }
}

/// Bottom-stack skeleton: main row of `m` bands on top, the rest side by
/// side below.
#[verifier::rlimit(100)]
fn bottom_stack_rects(screen: Rect, n: usize, max_main: u32, ratio: u32) -> (r: Vec<Rect>)
    requires
        screen.spec_fits(),
        RATIO_MIN <= ratio <= RATIO_MAX,
        n >= 1,
    ensures
        r@.len() == n,
        r@ == spec_bottom_stack(screen, n as int, max_main, ratio),
        tiles(screen, r@),
        placed_regions(screen, max_main, ratio, LayoutKind::BottomStack, r@),
{
    let m: usize = if (n as u64) <= (max_main as u64) {
        n
    } else {
        max_main as usize
    };
    if m == 0 || m == n {
        let out = split_cols(screen, n);
        proof {
            assert forall|i: int, j: int|
                0 <= i < out@.len() && 0 <= j < out@.len() && i != j implies (
            #[trigger] out@[i]).disjoint(#[trigger] out@[j]) by {
                lemma_cols_disjoint(screen, out@, i, j);
            }
            assert forall|i: int| 0 <= i < out@.len() implies screen.encloses(
                #[trigger] out@[i],
            ) by {
                lemma_cols_enclosed(screen, out@, i);
            }
            assert forall|px: int, py: int| screen.contains(px, py) implies exists|i: int|
                0 <= i < out@.len() && (#[trigger] out@[i]).contains(px, py) by {
                let w = lemma_cols_cover(screen, out@, px, py);
                assert(out@[w].contains(px, py));
            }
        }
        out
    } else {
        let mh: u32 = main_share(screen.h, ratio);
        let main_area = Rect { x: screen.x, y: screen.y, w: screen.w, h: mh };
        let stack_area = Rect { x: screen.x, y: screen.y + mh, w: screen.w, h: screen.h - mh };
        let mut out = split_cols(main_area, m);
        let ghost main_bands = out@;
        let stack_bands = split_cols(stack_area, n - m);
        let mut si: usize = 0;
        while si < stack_bands.len()
            invariant
                out@ == main_bands + stack_bands@.take(si as int),
                si <= stack_bands@.len(),
            decreases stack_bands@.len() - si,
        {
            let b = stack_bands[si];
            out.push(b);
            proof {
                assert(out@ =~= main_bands + stack_bands@.take(si + 1));
            }
            si = si + 1;
        }
        proof {
            assert(stack_bands@.take(si as int) =~= stack_bands@);
            assert(out@ =~= main_bands + stack_bands@);
            let mb = main_bands;
            let sb = stack_bands@;
            let ml = mb.len() as int;
            assert forall|i: int| 0 <= i < out@.len() implies screen.encloses(
                #[trigger] out@[i],
            ) by {
                if i < ml {
                    lemma_cols_enclosed(main_area, mb, i);
                } else {
                    lemma_cols_enclosed(stack_area, sb, i - ml);
                }
            }
            assert forall|i: int, j: int|
                0 <= i < out@.len() && 0 <= j < out@.len() && i != j implies (
            #[trigger] out@[i]).disjoint(#[trigger] out@[j]) by {
                if i < ml && j < ml {
                    lemma_cols_disjoint(main_area, mb, i, j);
                } else if i >= ml && j >= ml {
                    lemma_cols_disjoint(stack_area, sb, i - ml, j - ml);
                } else {
                    lemma_cols_enclosed(main_area, mb, if i < ml { i } else { j });
                    lemma_cols_enclosed(stack_area, sb, if i < ml { j - ml } else { i - ml });
                }
            }
            assert forall|px: int, py: int| screen.contains(px, py) implies exists|i: int|
                0 <= i < out@.len() && (#[trigger] out@[i]).contains(px, py) by {
                if py < main_area.y + main_area.h {
                    let w = lemma_cols_cover(main_area, mb, px, py);
                    assert(out@[w].contains(px, py));
                } else {
                    let w = lemma_cols_cover(stack_area, sb, px, py);
                    assert(out@[ml + w].contains(px, py));
                }
            }
            assert forall|i: int| 0 <= i < ml implies (#[trigger] out@[i]).y == screen.y
                && out@[i].h == mh by {
                assert(out@[i] == mb[i]);
            }
            assert forall|i: int| ml <= i < out@.len() implies (#[trigger] out@[i]).y == screen.y
                + mh && out@[i].h == screen.h - mh by {
                assert(out@[i] == sb[i - ml]);
            }
        }
        out
    }
}

/// `r` mirrored across the vertical centre line of `screen`.
pub open spec fn spec_reflect(screen: Rect, r: Rect) -> Rect {
    Rect { x: (screen.x + screen.w - (r.x - screen.x) - r.w) as u32, y: r.y, w: r.w, h: r.h }
}

fn reflect_rect(screen: Rect, r: Rect) -> (res: Rect)
    requires
        screen.spec_fits(),
        screen.encloses(r),
    ensures
        res == spec_reflect(screen, r),
{
    Rect { x: screen.x + (screen.w - ((r.x - screen.x) + r.w)), y: r.y, w: r.w, h: r.h }
}

/// Mirrors every rectangle of a tiling; the result still tiles the screen.
fn reflect_all(screen: Rect, rects: Vec<Rect>) -> (r: Vec<Rect>)
    requires
        screen.spec_fits(),
        tiles(screen, rects@),
    ensures
        r@.len() == rects@.len(),
        tiles(screen, r@),
        forall|i: int| 0 <= i < r@.len() ==> r@[i] == spec_reflect(screen, rects@[i]),
{
    let mut out: Vec<Rect> = Vec::new();
    let mut i: usize = 0;
    while i < rects.len()
        invariant
            screen.spec_fits(),
            tiles(screen, rects@),
            i <= rects@.len(),
            out@.len() == i,
            forall|j: int| 0 <= j < i ==> out@[j] == spec_reflect(screen, rects@[j]),
        decreases rects@.len() - i,
    {
        let b = rects[i];
        out.push(reflect_rect(screen, b));
        i = i + 1;
    }
    proof {
        assert forall|i2: int| 0 <= i2 < out@.len() implies screen.encloses(
            #[trigger] out@[i2],
        ) by {
            assert(screen.encloses(rects@[i2]));
        }
        assert forall|i2: int, j2: int|
            0 <= i2 < out@.len() && 0 <= j2 < out@.len() && i2 != j2 implies (
        #[trigger] out@[i2]).disjoint(#[trigger] out@[j2]) by {
            assert(rects@[i2].disjoint(rects@[j2]));
            assert(screen.encloses(rects@[i2]));
            assert(screen.encloses(rects@[j2]));
        }
        assert forall|px: int, py: int| screen.contains(px, py) implies exists|i2: int|
            0 <= i2 < out@.len() && (#[trigger] out@[i2]).contains(px, py) by {
            let mx = 2 * screen.x + screen.w - 1 - px;
            assert(screen.contains(mx, py));
            let w = choose|w: int|
                0 <= w < rects@.len() && (#[trigger] rects@[w]).contains(mx, py);
            assert(screen.encloses(rects@[w]));
            assert(out@[w].contains(px, py));
        }
    }
    out
}

/// Mirroring a side-stack arrangement across the screen's vertical centre
/// line puts the main column on the opposite side, widths kept.
proof fn lemma_reflected_regions(
    screen: Rect,
    max_main: u32,
    ratio: u32,
    base: Seq<Rect>,
    refl: Seq<Rect>,
)
    requires
        screen.spec_fits(),
        base.len() == refl.len(),
        tiles(screen, base),
        placed_regions(screen, max_main, ratio, LayoutKind::SideStack, base),
        forall|i: int| 0 <= i < refl.len() ==> refl[i] == spec_reflect(screen, base[i]),
        spec_main_share(screen.w, ratio) <= screen.w,
    ensures
        placed_regions(screen, max_main, ratio, LayoutKind::ReflectedSideStack, refl),
{
    let n = base.len() as int;
    let m = main_count(max_main, n);
    let mw = spec_main_share(screen.w, ratio) as int;
    if m == 0 || m == n {
        assert forall|i: int| 0 <= i < n implies (#[trigger] refl[i]).x == screen.x && refl[i].w
            == screen.w by {
            assert(base[i].x == screen.x && base[i].w == screen.w);
            assert(screen.encloses(base[i]));
        }
    } else {
        assert forall|i: int| 0 <= i < m implies (#[trigger] refl[i]).x == screen.x + screen.w
            - mw && refl[i].w == mw by {
            assert(base[i].x == screen.x && base[i].w == mw);
            assert(screen.encloses(base[i]));
        }
        assert forall|i: int| m <= i < n implies (#[trigger] refl[i]).x == screen.x && refl[i].w
            == screen.w - mw by {
            assert(base[i].x == screen.x + mw && base[i].w == screen.w - mw);
            assert(screen.encloses(base[i]));
        }
    }
}

impl Layout {
    /// Runs the bare algorithm: no gap margins. One placement per window,
    /// in the order given; the rectangles are exactly the sequence
    /// [`spec_layout_rects`] names, and for a non-empty window list they
    /// tile the screen.
    pub fn place(&self, windows: &Vec<u64>, screen: Rect) -> (r: Vec<(u64, Rect)>)
        requires
            self.wf(),
            screen.spec_fits(),
        ensures
            r@.len() == windows@.len(),
            forall|i: int| 0 <= i < r@.len() ==> (#[trigger] r@[i]).0 == windows@[i],
            windows@.len() > 0 ==> tiles(screen, r@.map_values(|p: (u64, Rect)| p.1)),
            windows@.len() > 0 ==> placed_regions(
                screen,
                self.max_main,
                self.ratio,
                self.kind,
                r@.map_values(|p: (u64, Rect)| p.1),
            ),
            r@.map_values(|p: (u64, Rect)| p.1) == spec_layout_rects(
                self.kind,
                screen,
                windows@.len() as int,
                self.max_main,
                self.ratio,
            ),
    {
        let ghost expected = spec_layout_rects(
            self.kind,
            screen,
            windows@.len() as int,
            self.max_main,
            self.ratio,
        );
        if windows.len() == 0 {
            let empty: Vec<(u64, Rect)> = Vec::new();
            proof {
                reveal_with_fuel(spec_split_rows, 1);
                reveal_with_fuel(spec_split_cols, 1);
                assert(expected =~= Seq::<Rect>::empty());
                assert(empty@.map_values(|p: (u64, Rect)| p.1) =~= Seq::<Rect>::empty());
            }
            return empty;
        }
        let rects = match self.kind {
            LayoutKind::SideStack => {
                let v = side_stack_rects(screen, windows.len(), self.max_main, self.ratio);
                proof {
                    assert(v@ == expected);
                }
                v
            },
            LayoutKind::ReflectedSideStack => {
                let base = side_stack_rects(screen, windows.len(), self.max_main, self.ratio);
                let ghost b = base@;
                let refl = reflect_all(screen, base);
                proof {
                    lemma_main_share_bound(screen.w, self.ratio);
                    lemma_reflected_regions(screen, self.max_main, self.ratio, b, refl@);
                    assert(refl@ =~= b.map(|i: int, r2: Rect| spec_reflect(screen, r2)));
                    assert(refl@ == expected);
                }
                refl
            },
            LayoutKind::BottomStack => {
                let v = bottom_stack_rects(screen, windows.len(), self.max_main, self.ratio);
                proof {
                    assert(v@ == expected);
                }
                v
            },
        };
        let paired = pair_up(windows, rects);
        proof {
            assert(paired@.map_values(|p: (u64, Rect)| p.1) == expected);
        }
        paired
    }
}

/// `r` inset by `g` pixels on every side; a rectangle too small for the
/// margin is left unchanged.
pub open spec fn spec_inset(r: Rect, g: u32) -> Rect {
    if 2 * g <= r.w && 2 * g <= r.h {
        Rect {
            x: (r.x + g) as u32,
            y: (r.y + g) as u32,
            w: (r.w - 2 * g) as u32,
            h: (r.h - 2 * g) as u32,
        }
    } else {
        r
    }
}

fn inset(r: Rect, g: u32) -> (res: Rect)
    requires
        r.spec_fits(),
    ensures
        res == spec_inset(r, g),
        r.encloses(res),
        res.spec_fits(),
{
    let g2: u64 = 2 * (g as u64);
    if g2 <= (r.w as u64) && g2 <= (r.h as u64) {
        Rect { x: r.x + g, y: r.y + g, w: r.w - (g2 as u32), h: r.h - (g2 as u32) }
    } else {
        r
    }
}

impl Layout {
    /// The full pipeline behind a redraw: strips the outer margin from the
    /// screen, runs the algorithm, then strips the inner margin from every
    /// placement. Each placement is exactly the inner inset of the
    /// [`spec_layout_rects`] rectangle for the outer-inset screen, so the
    /// output is a function of the inputs alone; placements keep the window
    /// order, stay pairwise disjoint and stay inside the outer-inset
    /// screen, and with zero margins they tile the screen exactly.
    pub fn arrange(&self, windows: &Vec<u64>, screen: Rect) -> (r: Vec<(u64, Rect)>)
        requires
            self.wf(),
            screen.spec_fits(),
        ensures
            r@.len() == windows@.len(),
            forall|i: int| 0 <= i < r@.len() ==> (#[trigger] r@[i]).0 == windows@[i],
            forall|i: int|
                0 <= i < r@.len() ==> spec_inset(screen, self.outer_px).encloses(
                    (#[trigger] r@[i]).1,
                ),
            forall|i: int, j: int|
                0 <= i < r@.len() && 0 <= j < r@.len() && i != j ==> (#[trigger] r@[i]).1.disjoint(
                    (#[trigger] r@[j]).1,
                ),
            self.outer_px == 0 && self.inner_px == 0 && windows@.len() > 0 ==> tiles(
                screen,
                r@.map_values(|p: (u64, Rect)| p.1),
            ) && placed_regions(
                screen,
                self.max_main,
                self.ratio,
                self.kind,
                r@.map_values(|p: (u64, Rect)| p.1),
            ),
            forall|j: int|
                0 <= j < r@.len() ==> (#[trigger] r@[j]).1 == spec_inset(
                    spec_layout_rects(
                        self.kind,
                        spec_inset(screen, self.outer_px),
                        windows@.len() as int,
                        self.max_main,
                        self.ratio,
                    )[j],
                    self.inner_px,
                ),
    {
        let work = inset(screen, self.outer_px);
        let base = self.place(windows, work);
        let ghost base_rects = base@.map_values(|p: (u64, Rect)| p.1);
        let ghost regions_ok = windows@.len() > 0 ==> placed_regions(
            work,
            self.max_main,
            self.ratio,
            self.kind,
            base_rects,
        );
        let mut out: Vec<(u64, Rect)> = Vec::new();
        let mut i: usize = 0;
        while i < base.len()
            invariant
                work.spec_fits(),
                windows@.len() == base@.len(),
                base_rects == base@.map_values(|p: (u64, Rect)| p.1),
                windows@.len() > 0 ==> tiles(work, base_rects),
                regions_ok,
                regions_ok == (windows@.len() > 0 ==> placed_regions(
                    work,
                    self.max_main,
                    self.ratio,
                    self.kind,
                    base_rects,
                )),
                forall|j: int| 0 <= j < base@.len() ==> (#[trigger] base@[j]).0 == windows@[j],
                i <= base@.len(),
                out@.len() == i,
                forall|j: int| 0 <= j < i ==> (#[trigger] out@[j]).0 == windows@[j],
                forall|j: int|
                    0 <= j < i ==> (#[trigger] out@[j]).1 == spec_inset(
                        base@[j].1,
                        self.inner_px,
                    ),
            decreases base@.len() - i,
        {
            let (id, b) = base[i];
            proof {
                if windows@.len() > 0 {
                    assert(base_rects[i as int] == b);
                    assert(work.encloses(b));
                }
            }
            let shrunk = inset(b, self.inner_px);
            out.push((id, shrunk));
            i = i + 1;
        }
        proof {
            let inner_rects = out@.map_values(|p: (u64, Rect)| p.1);
            if windows@.len() > 0 {
                assert forall|j: int| 0 <= j < out@.len() implies spec_inset(
                    screen,
                    self.outer_px,
                ).encloses((#[trigger] out@[j]).1) by {
                    assert(base_rects[j] == base@[j].1);
                    assert(work.encloses(base@[j].1));
                }
                assert forall|a: int, b2: int|
                    0 <= a < out@.len() && 0 <= b2 < out@.len() && a != b2 implies (
                #[trigger] out@[a]).1.disjoint((#[trigger] out@[b2]).1) by {
                    assert(base_rects[a] == base@[a].1);
                    assert(base_rects[b2] == base@[b2].1);
                    assert(base@[a].1.disjoint(base@[b2].1));
                }
                if self.outer_px == 0 && self.inner_px == 0 {
                    assert(work == screen);
                    assert(inner_rects =~= base_rects);
                }
                assert(work == spec_inset(screen, self.outer_px));
            }
        }
        out
    }
}

/// Pairs each window with its rectangle, keeping the order.
fn pair_up(windows: &Vec<u64>, rects: Vec<Rect>) -> (r: Vec<(u64, Rect)>)
    requires
        windows@.len() == rects@.len(),
    ensures
        r@.len() == windows@.len(),
        forall|i: int| 0 <= i < r@.len() ==> (#[trigger] r@[i]).0 == windows@[i],
        r@.map_values(|p: (u64, Rect)| p.1) =~= rects@,
{
    let mut out: Vec<(u64, Rect)> = Vec::new();
    let mut i: usize = 0;
    while i < windows.len()
        invariant
            windows@.len() == rects@.len(),
            i <= windows@.len(),
            out@.len() == i,
            forall|j: int| 0 <= j < i ==> (#[trigger] out@[j]).0 == windows@[j],
            forall|j: int| 0 <= j < i ==> (#[trigger] out@[j]).1 == rects@[j],
        decreases windows@.len() - i,
    {
        let w = windows[i];
        let b = rects[i];
        out.push((w, b));
        i = i + 1;
    }
    out
}

} // verus!
