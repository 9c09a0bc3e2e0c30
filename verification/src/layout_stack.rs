//! An ordered, cyclable collection of layout values with a cursor marking
//! the active one. Cycling wraps at both ends; parameter messages reach the
//! active layout only; gap margins are applied to every layout once, at
//! construction time.

use vstd::prelude::*;
use crate::layout::{Layout, LayoutKind, LayoutMessage};

verus! {

/// The layout stack: the configured layouts, in order, and the index of the
/// active one.
pub struct LayoutStack {
    pub layouts: Vec<Layout>,
    pub cursor: usize,
}

impl LayoutStack {
    /// At least one layout, a cursor in range, every layout well formed.
    pub open spec fn wf(self) -> bool {
        &&& self.layouts@.len() > 0
        &&& self.cursor < self.layouts@.len()
        &&& forall|i: int| 0 <= i < self.layouts@.len() ==> (#[trigger] self.layouts@[i]).wf()
    }

    /// The stack with the cursor moved one step forward, wrapping at the end.
    pub open spec fn spec_next(self) -> LayoutStack {
        LayoutStack {
            cursor: if self.cursor + 1 == self.layouts@.len() {
                0usize
            } else {
                (self.cursor + 1) as usize
            },
            ..self
        }
    }

    /// The stack with the cursor moved one step back, wrapping at the start.
    pub open spec fn spec_previous(self) -> LayoutStack {
        LayoutStack {
            cursor: if self.cursor == 0 {
                (self.layouts@.len() - 1) as usize
            } else {
                (self.cursor - 1) as usize
            },
            ..self
        }
    }

    pub fn new(layouts: Vec<Layout>) -> (r: LayoutStack)
        requires
            layouts@.len() > 0,
            forall|i: int| 0 <= i < layouts@.len() ==> (#[trigger] layouts@[i]).wf(),
        ensures
            r == (LayoutStack { layouts, cursor: 0usize }),
            r.wf(),
    {
        LayoutStack { layouts, cursor: 0 }
    }

    /// Activates the next layout, wrapping around.
    pub fn next_layout(&mut self)
        requires
            old(self).wf(),
        ensures
            *final(self) == old(self).spec_next(),
            final(self).wf(),
    {
        let n = self.layouts.len();
        if self.cursor + 1 == n {
            self.cursor = 0;
        } else {
            self.cursor = self.cursor + 1;
        }
    }

    /// Activates the previous layout, wrapping around.
    pub fn previous_layout(&mut self)
        requires
            old(self).wf(),
        ensures
            *final(self) == old(self).spec_previous(),
            final(self).wf(),
    {
        if self.cursor == 0 {
            self.cursor = self.layouts.len() - 1;
        } else {
            self.cursor = self.cursor - 1;
        }
    }

    /// Forwards a parameter message to the active layout; the other layouts
    /// are untouched. `window_count` is how many windows the workspace
    /// being arranged holds — the upper clamp for `IncMain`.
    pub fn send_message(&mut self, msg: LayoutMessage, window_count: usize)
        requires
            old(self).wf(),
        ensures
            final(self).cursor == old(self).cursor,
            final(self).layouts@ == old(self).layouts@.update(
                old(self).cursor as int,
                old(self).layouts@[old(self).cursor as int].spec_handle(
                    msg,
                    window_count as int,
                ),
            ),
            final(self).wf(),
    {
        let c = self.cursor;
        self.layouts[c].handle_message(msg, window_count);
    }

    /// The active layout's value.
    pub fn active(&self) -> (r: Layout)
        requires
            self.wf(),
        ensures
            r == self.layouts@[self.cursor as int],
    {
        self.layouts[self.cursor]
    }

    /// Sets the gap margins on every layout in the stack. Gaps compose into
    /// the stack once, when it is built, and are not re-toggled at runtime.
    pub fn map_gaps(&mut self, outer_px: u32, inner_px: u32)
        requires
            old(self).wf(),
        ensures
            final(self).cursor == old(self).cursor,
            final(self).layouts@.len() == old(self).layouts@.len(),
            forall|i: int|
                0 <= i < final(self).layouts@.len() ==> final(self).layouts@[i] == (Layout {
                    outer_px,
                    inner_px,
                    ..old(self).layouts@[i]
                }),
            final(self).wf(),
    {
        let mut i: usize = 0;
        while i < self.layouts.len()
            invariant
                self.cursor == old(self).cursor,
                self.layouts@.len() == old(self).layouts@.len(),
                old(self).wf(),
                i <= self.layouts@.len(),
                forall|j: int|
                    0 <= j < i ==> self.layouts@[j] == (Layout {
                        outer_px,
                        inner_px,
                        ..old(self).layouts@[j]
                    }),
                forall|j: int|
                    i <= j < self.layouts@.len() ==> self.layouts@[j] == old(self).layouts@[j],
            decreases self.layouts@.len() - i,
        {
            self.layouts[i].outer_px = outer_px;
            self.layouts[i].inner_px = inner_px;
            i = i + 1;
        }
    }
}

/// The stack after `k` forward cycling steps.
pub open spec fn spec_next_n(s: LayoutStack, k: nat) -> LayoutStack
    decreases k,
{
    if k == 0 {
        s
    } else {
        spec_next_n(s, (k - 1) as nat).spec_next()
    }
}

/// After `k <= len` forward steps the layouts are unchanged and the cursor
/// has advanced by `k`, wrapped once past the end.
proof fn lemma_next_n_cursor(s: LayoutStack, k: nat)
    requires
        s.wf(),
        k <= s.layouts@.len(),
    ensures
        spec_next_n(s, k).layouts == s.layouts,
        spec_next_n(s, k).cursor == if s.cursor + k < s.layouts@.len() {
            s.cursor + k
        } else {
            s.cursor + k - s.layouts@.len()
        },
    decreases k,
{
    vstd::std_specs::vec::axiom_spec_len(&s.layouts);
    if k > 0 {
        lemma_next_n_cursor(s, (k - 1) as nat);
    }
}

/// Cycling the active layout as many times as the stack is long returns the
/// cursor to its starting position, leaving the stack as it was.
pub proof fn lemma_layout_cycle(s: LayoutStack)
    requires
        s.wf(),
    ensures
        spec_next_n(s, s.layouts@.len()) == s,
{
    lemma_next_n_cursor(s, s.layouts@.len());
}

/// The stack this configuration uses: a side stack, its
/// horizontal reflection and a bottom stack, each with one main window, a
/// 60% main share adjusted in 10% steps, and five-pixel outer and inner
/// gaps.
pub fn layouts() -> (r: LayoutStack)
    ensures
        r.wf(),
        r.cursor == 0,
        r.layouts@.len() == 3,
        r.layouts@[0] == (Layout {
            kind: LayoutKind::SideStack,
            max_main: 1u32,
            ratio: 600u32,
            ratio_step: 100u32,
            outer_px: 5u32,
            inner_px: 5u32,
        }),
        r.layouts@[1] == (Layout {
            kind: LayoutKind::ReflectedSideStack,
            max_main: 1u32,
            ratio: 600u32,
            ratio_step: 100u32,
            outer_px: 5u32,
            inner_px: 5u32,
        }),
        r.layouts@[2] == (Layout {
            kind: LayoutKind::BottomStack,
            max_main: 1u32,
            ratio: 600u32,
            ratio_step: 100u32,
            outer_px: 5u32,
            inner_px: 5u32,
        }),
{
    let max_main: u32 = 1;
    let ratio: u32 = 600;
    let ratio_step: u32 = 100;
    let outer_px: u32 = 5;
    let inner_px: u32 = 5;
    let mut ls: Vec<Layout> = Vec::new();
    ls.push(Layout::new(LayoutKind::SideStack, max_main, ratio, ratio_step));
    ls.push(Layout::new(LayoutKind::ReflectedSideStack, max_main, ratio, ratio_step));
    ls.push(Layout::new(LayoutKind::BottomStack, max_main, ratio, ratio_step));
    let mut stack = LayoutStack::new(ls);
    stack.map_gaps(outer_px, inner_px);
    stack
}

} // verus!
