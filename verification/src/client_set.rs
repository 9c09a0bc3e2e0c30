//! The client/tag state model: every managed window sits in exactly one
//! workspace's stacking order, an inverse index maps each window back to
//! its workspace, and each screen shows one workspace with a two-entry
//! visit history. The forward/inverse agreement is the `wf` invariant;
//! every mutating operation is proved to preserve it.

use vstd::prelude::*;
use crate::errors::WmError;
use crate::geometry::Rect;
use crate::text::str_eq;

verus! {

/// One workspace: a tag name and the windows on it in stacking order,
/// most-recently-focused first, with the focus cursor into that order.
pub struct Workspace {
    pub name: String,
    pub windows: Vec<u64>,
    pub focus: usize,
}

impl Workspace {
    /// The focus cursor is in range (zero on an empty workspace) and no
    /// window appears twice.
    pub open spec fn wf(self) -> bool {
        &&& (self.windows@.len() == 0 ==> self.focus == 0)
        &&& (self.windows@.len() > 0 ==> self.focus < self.windows@.len())
        &&& forall|p: int, q: int|
            0 <= p < q < self.windows@.len() ==> self.windows@[p] != self.windows@[q]
    }
}

/// One physical screen: its region, the workspace it shows, and the one it
/// showed before (for toggling back).
pub struct ScreenState {
    pub rect: Rect,
    pub visible: usize,
    pub previous: usize,
}

/// The aggregate state the window manager mutates on every event.
pub struct ClientSet {
    pub workspaces: Vec<Workspace>,
    /// Inverse index: which workspace each managed window sits on.
    pub index: Vec<(u64, usize)>,
    pub screens: Vec<ScreenState>,
    /// Which screen is current, in creation order.
    pub current: usize,
}

/// The focus cursor one step down the stacking order, wrapping.
pub open spec fn next_focus(f: int, n: int) -> int {
    if f + 1 == n {
        0
    } else {
        f + 1
    }
}

/// The focus cursor one step up the stacking order, wrapping.
pub open spec fn prev_focus(f: int, n: int) -> int {
    if f == 0 {
        n - 1
    } else {
        f - 1
    }
}

/// Stepping the focus cursor down and then up (or up and then down)
/// returns it to where it started, on any workspace the cursor fits.
pub proof fn lemma_focus_round_trip(f: int, n: int)
    requires
        0 <= f < n,
    ensures
        prev_focus(next_focus(f, n), n) == f,
        next_focus(prev_focus(f, n), n) == f,
{
}

impl ClientSet {
    /// The window `w` is somewhere in the inverse index.
    pub open spec fn manages(self, w: u64) -> bool {
        exists|e: int| 0 <= e < self.index@.len() && (#[trigger] self.index@[e]).0 == w
    }

    /// Some workspace carries the tag name `t`.
    pub open spec fn has_tag(self, t: Seq<char>) -> bool {
        exists|i: int|
            0 <= i < self.workspaces@.len() && (#[trigger] self.workspaces@[i]).name@ == t
    }

    /// The workspace carrying tag name `t` (unique when `wf`).
    pub open spec fn tag_index(self, t: Seq<char>) -> int {
        choose|i: int|
            0 <= i < self.workspaces@.len() && (#[trigger] self.workspaces@[i]).name@ == t
    }

    /// The inverse index holds the pair `(w, t)`.
    pub open spec fn index_maps(self, w: u64, t: int) -> bool {
        exists|e: int|
            0 <= e < self.index@.len() && (#[trigger] self.index@[e]).0 == w
                && self.index@[e].1 == t
    }

    /// The forward/inverse agreement invariant: workspaces and screens are
    /// well formed, tag names are distinct, every index entry points at a
    /// workspace that holds its window, no window has two entries, and
    /// every window of every workspace has its entry.
    pub open spec fn wf(self) -> bool {
        &&& self.workspaces@.len() > 0
        &&& self.screens@.len() > 0
        &&& self.current < self.screens@.len()
        &&& forall|i: int| 0 <= i < self.workspaces@.len() ==> (#[trigger] self.workspaces@[i]).wf()
        &&& forall|i: int, j: int|
            0 <= i < j < self.workspaces@.len() ==> (#[trigger] self.workspaces@[i]).name@ != (
            #[trigger] self.workspaces@[j]).name@
        &&& forall|s: int|
            0 <= s < self.screens@.len() ==> (#[trigger] self.screens@[s]).visible
                < self.workspaces@.len() && self.screens@[s].previous < self.workspaces@.len()
        &&& forall|e: int|
            0 <= e < self.index@.len() ==> (#[trigger] self.index@[e]).1 < self.workspaces@.len()
                && self.workspaces@[self.index@[e].1 as int].windows@.contains(self.index@[e].0)
        &&& forall|e: int, f: int|
            0 <= e < f < self.index@.len() ==> (#[trigger] self.index@[e]).0 != (
            #[trigger] self.index@[f]).0
        &&& forall|i: int, j: int|
            0 <= i < self.workspaces@.len() && 0 <= j < self.workspaces@[i].windows@.len()
                ==> self.index_maps(#[trigger] self.workspaces@[i].windows@[j], i)
    }

    /// The workspace the current screen shows.
    pub open spec fn visible_tag(self) -> int {
        self.screens@[self.current as int].visible as int
    }

    /// Builds the startup state: one workspace per tag, all empty; screen
    /// `s` shows tag `s` with no history. Refused when there is no tag or
    /// no screen, a tag name repeats, or there are more screens than tags.
    pub fn new(tags: Vec<String>, screen_rects: Vec<Rect>) -> (r: Result<ClientSet, WmError>)
        ensures
            (r is Ok) <==> (tags@.len() > 0 && screen_rects@.len() > 0 && screen_rects@.len()
                <= tags@.len() && (forall|i: int, j: int|
                0 <= i < j < tags@.len() ==> (#[trigger] tags@[i])@ != (#[trigger] tags@[j])@)),
            r is Err ==> r == Err::<ClientSet, WmError>(WmError::InvalidTagName),
            r matches Ok(cs) ==> ({
                &&& cs.wf()
                &&& cs.workspaces@.len() == tags@.len()
                &&& forall|i: int|
                    0 <= i < tags@.len() ==> (#[trigger] cs.workspaces@[i]).name@ == tags@[i]@
                        && cs.workspaces@[i].windows@.len() == 0 && cs.workspaces@[i].focus == 0
                &&& cs.index@.len() == 0
                &&& cs.screens@.len() == screen_rects@.len()
                &&& forall|s: int|
                    0 <= s < screen_rects@.len() ==> (#[trigger] cs.screens@[s]).rect
                        == screen_rects@[s] && cs.screens@[s].visible == s
                        && cs.screens@[s].previous == s
                &&& cs.current == 0
            }),
    {
        if tags.len() == 0 || screen_rects.len() == 0 || screen_rects.len() > tags.len() {
            return Err(WmError::InvalidTagName);
        }
        let mut i: usize = 0;
        while i < tags.len()
            invariant
                i <= tags@.len(),
                forall|a: int, b: int|
                    0 <= a < b < tags@.len() && b < i ==> (#[trigger] tags@[a])@ != (
                    #[trigger] tags@[b])@,
            decreases tags@.len() - i,
        {
            let mut j: usize = 0;
            while j < i
                invariant
                    j <= i < tags@.len(),
                    forall|a: int| 0 <= a < j ==> (#[trigger] tags@[a])@ != tags@[i as int]@,
                decreases i - j,
            {
                if str_eq(tags[j].as_str(), tags[i].as_str()) {
                    return Err(WmError::InvalidTagName);
                }
                j = j + 1;
            }
            i = i + 1;
        }
        let mut workspaces: Vec<Workspace> = Vec::new();
        let mut k: usize = 0;
        while k < tags.len()
            invariant
                k <= tags@.len(),
                workspaces@.len() == k,
                forall|a: int|
                    0 <= a < k ==> (#[trigger] workspaces@[a]).name@ == tags@[a]@
                        && workspaces@[a].windows@.len() == 0 && workspaces@[a].focus == 0,
            decreases tags@.len() - k,
        {
            let name = tags[k].clone();
            workspaces.push(Workspace { name, windows: Vec::new(), focus: 0 });
            k = k + 1;
        }
        let mut screens: Vec<ScreenState> = Vec::new();
        let mut s: usize = 0;
        while s < screen_rects.len()
            invariant
                s <= screen_rects@.len(),
                screens@.len() == s,
                forall|a: int|
                    0 <= a < s ==> (#[trigger] screens@[a]).rect == screen_rects@[a]
                        && screens@[a].visible == a && screens@[a].previous == a,
            decreases screen_rects@.len() - s,
        {
            let rect = screen_rects[s];
            screens.push(ScreenState { rect, visible: s, previous: s });
            s = s + 1;
        }
        let cs = ClientSet { workspaces, index: Vec::new(), screens, current: 0 };
        Ok(cs)
    }

    /// Looks `w` up in the inverse index.
    fn find_entry(&self, w: u64) -> (r: Option<usize>)
        ensures
            r is Some <==> self.manages(w),
            r matches Some(e) ==> e < self.index@.len() && self.index@[e as int].0 == w,
    {
        let mut e: usize = 0;
        while e < self.index.len()
            invariant
                e <= self.index@.len(),
                forall|k: int| 0 <= k < e ==> (#[trigger] self.index@[k]).0 != w,
            decreases self.index@.len() - e,
        {
            if self.index[e].0 == w {
                return Some(e);
            }
            e = e + 1;
        }
        None
    }

    /// Looks a tag name up among the workspaces.
    fn find_tag(&self, tag: &str) -> (r: Option<usize>)
        ensures
            r is Some <==> self.has_tag(tag@),
            r matches Some(t) ==> t < self.workspaces@.len() && self.workspaces@[t as int].name@
                == tag@,
    {
        let mut i: usize = 0;
        while i < self.workspaces.len()
            invariant
                i <= self.workspaces@.len(),
                forall|k: int| 0 <= k < i ==> (#[trigger] self.workspaces@[k]).name@ != tag@,
            decreases self.workspaces@.len() - i,
        {
            if str_eq(self.workspaces[i].name.as_str(), tag) {
                return Some(i);
            }
            i = i + 1;
        }
        None
    }

    /// Inserts `w` as the most-recently-focused window of the workspace
    /// named `tag`, and focuses it there. The forward/inverse invariant is
    /// preserved; an already-tracked window or an unknown tag is refused
    /// and the state left untouched.
    pub fn add_window(&mut self, w: u64, tag: &str) -> (r: Result<(), WmError>)
        requires
            old(self).wf(),
        ensures
            final(self).wf(),
            r is Ok <==> (!old(self).manages(w) && old(self).has_tag(tag@)),
            (r == Err::<(), WmError>(WmError::DuplicateWindow)) <==> old(self).manages(w),
            (r == Err::<(), WmError>(WmError::InvalidTagName)) <==> (!old(self).manages(w)
                && !old(self).has_tag(tag@)),
            r is Err ==> *final(self) == *old(self),
            r is Ok ==> final(self).screens@ == old(self).screens@,
            r is Ok ==> final(self).current == old(self).current,
            r is Ok ==> final(self).workspaces@.len() == old(self).workspaces@.len(),
            r is Ok ==> (forall|i: int|
                0 <= i < old(self).workspaces@.len() && i != old(self).tag_index(tag@)
                    ==> final(self).workspaces@[i] == old(self).workspaces@[i]),
            r is Ok ==> final(self).workspaces@[old(self).tag_index(tag@)].windows@ == seq![w]
                + old(self).workspaces@[old(self).tag_index(tag@)].windows@,
            r is Ok ==> final(self).workspaces@[old(self).tag_index(tag@)].focus == 0,
            r is Ok ==> final(self).workspaces@[old(self).tag_index(tag@)].name@ == tag@,
            r is Ok ==> final(self).manages(w),
    {
        if self.find_entry(w).is_some() {
            return Err(WmError::DuplicateWindow);
        }
        let t = match self.find_tag(tag) {
            Some(t) => t,
            None => {
                return Err(WmError::InvalidTagName);
            },
        };
        proof {
            let t0 = old(self).tag_index(tag@);
            assert(0 <= t0 < self.workspaces@.len() && self.workspaces@[t0].name@ == tag@);
            assert(t0 == t as int);
        }
        let ghost oldcs = *old(self);
        self.workspaces[t].windows.insert(0, w);
        self.workspaces[t].focus = 0;
        self.index.push((w, t));
        proof {
            let ov = oldcs.workspaces@;
            let nv = self.workspaces@;
            let oi = oldcs.index@;
            let ni = self.index@;
            let ti = t as int;
            let oldwin = ov[ti].windows@;
            let newwin = nv[ti].windows@;
            assert(newwin =~= seq![w] + oldwin);
            assert(forall|i: int| 0 <= i < ov.len() && i != ti ==> nv[i] == ov[i]);
            assert(ni =~= oi.push((w, t)));
            // w was nowhere before
            assert forall|j: int| 0 <= j < oldwin.len() implies oldwin[j] != w by {
                if oldwin[j] == w {
                    assert(oldcs.index_maps(oldwin[j], ti));
                    assert(oldcs.manages(w));
                }
            }
            // each workspace stays well formed
            assert forall|i: int| 0 <= i < nv.len() implies (#[trigger] nv[i]).wf() by {
                if i == ti {
                    assert forall|p: int, q: int|
                        0 <= p < q < newwin.len() implies newwin[p] != newwin[q] by {
                        if p == 0 {
                            assert(newwin[q] == oldwin[q - 1]);
                        } else {
                            assert(newwin[p] == oldwin[p - 1]);
                            assert(newwin[q] == oldwin[q - 1]);
                            assert(ov[ti].wf());
                        }
                    }
                } else {
                    assert(nv[i] == ov[i]);
                }
            }
            // every index entry still points at a workspace holding its window
            assert forall|e: int| 0 <= e < ni.len() implies (#[trigger] ni[e]).1 < nv.len()
                && nv[ni[e].1 as int].windows@.contains(ni[e].0) by {
                if e < oi.len() {
                    assert(ni[e] == oi[e]);
                    let wi = oi[e].1 as int;
                    if wi == ti {
                        let j = choose|j: int| 0 <= j < oldwin.len() && oldwin[j] == oi[e].0;
                        assert(newwin[j + 1] == oi[e].0);
                    } else {
                        assert(nv[wi] == ov[wi]);
                    }
                } else {
                    assert(ni[e] == (w, t));
                    assert(newwin[0] == w);
                }
            }
            // still at most one entry per window
            assert forall|e: int, f: int| 0 <= e < f < ni.len() implies (#[trigger] ni[e]).0 != (
            #[trigger] ni[f]).0 by {
                if f == oi.len() {
                    assert(ni[e] == oi[e]);
                    if oi[e].0 == w {
                        assert(oldcs.manages(w));
                    }
                }
            }
            // every placed window still has its entry
            assert forall|i: int, j: int|
                0 <= i < nv.len() && 0 <= j < nv[i].windows@.len() implies self.index_maps(
                #[trigger] nv[i].windows@[j], i) by {
                if i == ti && j == 0 {
                    assert(ni[oi.len() as int].0 == w && ni[oi.len() as int].1 == ti);
                } else {
                    let x = if i == ti {
                        oldwin[j - 1]
                    } else {
                        ov[i].windows@[j]
                    };
                    assert(nv[i].windows@[j] == x);
                    assert(oldcs.index_maps(x, i));
                    let e = choose|e: int|
                        0 <= e < oi.len() && (#[trigger] oi[e]).0 == x && oi[e].1 == i;
                    assert(ni[e].0 == x && ni[e].1 == i);
                }
            }
            assert(self.manages(w)) by {
                assert(ni[oi.len() as int].0 == w);
            }
        }
        Ok(())
    }

    /// The position of `w`'s entry in the inverse index (unique when `wf`).
    pub open spec fn entry_of(self, w: u64) -> int {
        choose|e: int| 0 <= e < self.index@.len() && (#[trigger] self.index@[e]).0 == w
    }

    /// The workspace a managed window sits on.
    pub open spec fn tag_of(self, w: u64) -> int {
        self.index@[self.entry_of(w)].1 as int
    }

    /// The position of a managed window in its workspace's stacking order.
    pub open spec fn pos_of(self, w: u64) -> int {
        choose|j: int|
            0 <= j < self.workspaces@[self.tag_of(w)].windows@.len()
                && (#[trigger] self.workspaces@[self.tag_of(w)].windows@[j]) == w
    }

    /// Removes `w` from its workspace and from the inverse index. Focus
    /// moves to the entry that was adjacent in stacking order: the cursor
    /// keeps its position, stepping back only when the removed window was
    /// last; it empties (to zero) with the workspace.
    pub fn remove_window(&mut self, w: u64) -> (r: Result<(), WmError>)
        requires
            old(self).wf(),
        ensures
            final(self).wf(),
            r is Ok <==> old(self).manages(w),
            r is Err ==> r == Err::<(), WmError>(WmError::UnknownWindow) && *final(self) == *old(
                self,
            ),
            r is Ok ==> final(self).screens@ == old(self).screens@,
            r is Ok ==> final(self).current == old(self).current,
            r is Ok ==> final(self).workspaces@.len() == old(self).workspaces@.len(),
            r is Ok ==> (forall|i: int|
                0 <= i < old(self).workspaces@.len() && i != old(self).tag_of(w)
                    ==> final(self).workspaces@[i] == old(self).workspaces@[i]),
            r is Ok ==> final(self).workspaces@[old(self).tag_of(w)].windows@ == old(
                self,
            ).workspaces@[old(self).tag_of(w)].windows@.remove(old(self).pos_of(w)),
            r is Ok ==> final(self).workspaces@[old(self).tag_of(w)].focus == fix_focus(
                old(self).workspaces@[old(self).tag_of(w)].focus as int,
                old(self).pos_of(w),
                old(self).workspaces@[old(self).tag_of(w)].windows@.len() - 1,
            ),
            r is Ok ==> !final(self).manages(w),
    {
        let e = match self.find_entry(w) {
            Some(e) => e,
            None => {
                return Err(WmError::UnknownWindow);
            },
        };
        let t = self.index[e].1;
        proof {
            let e0 = old(self).entry_of(w);
            assert(0 <= e0 < self.index@.len() && self.index@[e0].0 == w);
            assert(e0 == e as int);
        }
        let ghost oldcs = *old(self);
        let ghost ti = t as int;
        let ghost oldwin = oldcs.workspaces@[ti].windows@;
        self.index.remove(e);
        // find w in its workspace's stacking order
        let wsn = self.workspaces[t].windows.len();
        let mut j: usize = 0;
        let mut pos: usize = 0;
        let mut found = false;
        while j < wsn
            invariant
                wsn == self.workspaces@[ti].windows@.len(),
                0 <= ti < self.workspaces@.len(),
                ti == t as int,
                j <= wsn,
                found ==> pos < wsn && self.workspaces@[ti].windows@[pos as int] == w,
                !found ==> (forall|k: int|
                    0 <= k < j ==> (#[trigger] self.workspaces@[ti].windows@[k]) != w),
            decreases wsn - j,
        {
            if !found {
                if self.workspaces[t].windows[j] == w {
                    pos = j;
                    found = true;
                }
            }
            j = j + 1;
        }
        proof {
            assert(oldwin.contains(w));
            if !found {
                let k = choose|k: int| 0 <= k < oldwin.len() && oldwin[k] == w;
                assert(oldwin[k] != w);
            }
            let p0 = oldcs.pos_of(w);
            assert(0 <= p0 < oldwin.len() && oldwin[p0] == w);
            assert(oldcs.workspaces@[ti].wf());
            assert(p0 == pos as int);
        }
        self.workspaces[t].windows.remove(pos);
        let n = self.workspaces[t].windows.len();
        let f = self.workspaces[t].focus;
        self.workspaces[t].focus = if n == 0 {
            0
        } else if pos < f {
            f - 1
        } else if f < n {
            f
        } else {
            n - 1
        };
        proof {
            let ov = oldcs.workspaces@;
            let nv = self.workspaces@;
            let oi = oldcs.index@;
            let ni = self.index@;
            let ei = e as int;
            let pi = pos as int;
            let newwin = nv[ti].windows@;
            oldwin.remove_ensures(pi);
            oi.remove_ensures(ei);
            assert(newwin =~= oldwin.remove(pi));
            assert(ni =~= oi.remove(ei));
            assert(forall|i: int| 0 <= i < ov.len() && i != ti ==> nv[i] == ov[i]);
            assert(oi[ei].0 == w && oi[ei].1 == t);
            // workspaces stay well formed
            assert forall|i: int| 0 <= i < nv.len() implies (#[trigger] nv[i]).wf() by {
                if i == ti {
                    assert(ov[ti].wf());
                    assert forall|p: int, q: int|
                        0 <= p < q < newwin.len() implies newwin[p] != newwin[q] by {
                        let p2 = if p < pi { p } else { p + 1 };
                        let q2 = if q < pi { q } else { q + 1 };
                        assert(newwin[p] == oldwin[p2]);
                        assert(newwin[q] == oldwin[q2]);
                    }
                } else {
                    assert(nv[i] == ov[i]);
                }
            }
            // index entries still point at workspaces that hold them
            assert forall|e2: int| 0 <= e2 < ni.len() implies (#[trigger] ni[e2]).1 < nv.len()
                && nv[ni[e2].1 as int].windows@.contains(ni[e2].0) by {
                let m = if e2 < ei { e2 } else { e2 + 1 };
                assert(ni[e2] == oi[m]);
                let wi = oi[m].1 as int;
                if wi == ti {
                    assert(oi[m].0 != w);
                    let k = choose|k: int| 0 <= k < oldwin.len() && oldwin[k] == oi[m].0;
                    assert(k != pi);
                    let k2 = if k < pi { k } else { k - 1 };
                    assert(newwin[k2] == oldwin[k]);
                } else {
                    assert(nv[wi] == ov[wi]);
                }
            }
            // still at most one entry per window
            assert forall|e2: int, f2: int|
                0 <= e2 < f2 < ni.len() implies (#[trigger] ni[e2]).0 != (#[trigger] ni[f2]).0 by {
                let m1 = if e2 < ei { e2 } else { e2 + 1 };
                let m2 = if f2 < ei { f2 } else { f2 + 1 };
                assert(ni[e2] == oi[m1]);
                assert(ni[f2] == oi[m2]);
            }
            // every placed window still has its entry
            assert forall|i: int, j2: int|
                0 <= i < nv.len() && 0 <= j2 < nv[i].windows@.len() implies self.index_maps(
                #[trigger] nv[i].windows@[j2], i) by {
                let x = if i == ti {
                    if j2 < pi {
                        oldwin[j2]
                    } else {
                        oldwin[j2 + 1]
                    }
                } else {
                    ov[i].windows@[j2]
                };
                assert(nv[i].windows@[j2] == x);
                assert(oldcs.index_maps(x, i));
                let m = choose|m: int|
                    0 <= m < oi.len() && (#[trigger] oi[m]).0 == x && oi[m].1 == i;
                if x == w {
                    // w's one entry named workspace ti at position pi
                    assert(m == ei);
                    if i == ti {
                        assert(ov[ti].wf());
                        if j2 < pi {
                            assert(oldwin[j2] != oldwin[pi]);
                        } else {
                            assert(oldwin[j2 + 1] != oldwin[pi]);
                        }
                        assert(false);
                    } else {
                        assert(false);
                    }
                } else {
                    assert(m != ei);
                    let m2 = if m < ei { m } else { m - 1 };
                    assert(ni[m2] == oi[m]);
                }
            }
            // w is gone from the index
            assert forall|e2: int| 0 <= e2 < ni.len() implies (#[trigger] ni[e2]).0 != w by {
                let m = if e2 < ei { e2 } else { e2 + 1 };
                assert(ni[e2] == oi[m]);
            }
        }
        Ok(())
    }
}

impl ClientSet {
    /// Rotates the focus cursor one step down the visible workspace's
    /// stacking order; with one window or none, nothing changes.
    pub fn focus_down(&mut self)
        requires
            old(self).wf(),
        ensures
            final(self).wf(),
            focus_contract(*old(self), *final(self), true),
    {
        let s = self.screens[self.current].visible;
        let n = self.workspaces[s].windows.len();
        if n > 1 {
            let f = self.workspaces[s].focus;
            self.workspaces[s].focus = if f + 1 == n {
                0
            } else {
                f + 1
            };
            proof {
                lemma_same_windows_wf(*old(self), *self);
            }
        }
    }

    /// Rotates the focus cursor one step up the visible workspace's
    /// stacking order; with one window or none, nothing changes.
    pub fn focus_up(&mut self)
        requires
            old(self).wf(),
        ensures
            final(self).wf(),
            focus_contract(*old(self), *final(self), false),
    {
        let s = self.screens[self.current].visible;
        let n = self.workspaces[s].windows.len();
        if n > 1 {
            let f = self.workspaces[s].focus;
            self.workspaces[s].focus = if f == 0 {
                n - 1
            } else {
                f - 1
            };
            proof {
                lemma_same_windows_wf(*old(self), *self);
            }
        }
    }

    /// Exchanges the focused window with its neighbour below in stacking
    /// order (wrapping), keeping it focused; no-op on one window or none.
    pub fn swap_down(&mut self)
        requires
            old(self).wf(),
        ensures
            final(self).wf(),
            swap_contract(*old(self), *final(self), true),
    {
        let s = self.screens[self.current].visible;
        let n = self.workspaces[s].windows.len();
        if n > 1 {
            let f = self.workspaces[s].focus;
            let g: usize = if f + 1 == n {
                0
            } else {
                f + 1
            };
            self.swap_visible(s, f, g);
        }
    }

    /// Exchanges the focused window with its neighbour above in stacking
    /// order (wrapping), keeping it focused; no-op on one window or none.
    pub fn swap_up(&mut self)
        requires
            old(self).wf(),
        ensures
            final(self).wf(),
            swap_contract(*old(self), *final(self), false),
    {
        let s = self.screens[self.current].visible;
        let n = self.workspaces[s].windows.len();
        if n > 1 {
            let f = self.workspaces[s].focus;
            let g: usize = if f == 0 {
                n - 1
            } else {
                f - 1
            };
            self.swap_visible(s, f, g);
        }
    }

    /// Swaps positions `f` and `g` of the visible workspace's stacking
    /// order and focuses `g`.
    fn swap_visible(&mut self, s: usize, f: usize, g: usize)
        requires
            old(self).wf(),
            s as int == old(self).visible_tag(),
            f == old(self).workspaces@[s as int].focus,
            f < old(self).workspaces@[s as int].windows@.len(),
            g < old(self).workspaces@[s as int].windows@.len(),
        ensures
            final(self).wf(),
            final(self).index@ == old(self).index@,
            final(self).screens@ == old(self).screens@,
            final(self).current == old(self).current,
            final(self).workspaces@.len() == old(self).workspaces@.len(),
            forall|i: int|
                0 <= i < old(self).workspaces@.len() && i != s as int ==> final(self).workspaces@[i]
                    == old(self).workspaces@[i],
            final(self).workspaces@[s as int].name@ == old(self).workspaces@[s as int].name@,
            final(self).workspaces@[s as int].focus == g,
            final(self).workspaces@[s as int].windows@ == old(
                self,
            ).workspaces@[s as int].windows@.update(
                f as int,
                old(self).workspaces@[s as int].windows@[g as int],
            ).update(g as int, old(self).workspaces@[s as int].windows@[f as int]),
    {
        let a = self.workspaces[s].windows[f];
        let b = self.workspaces[s].windows[g];
        self.workspaces[s].windows[f] = b;
        self.workspaces[s].windows[g] = a;
        self.workspaces[s].focus = g;
        proof {
            let ov = old(self).workspaces@;
            let nv = self.workspaces@;
            let si = s as int;
            let oldwin = ov[si].windows@;
            let newwin = nv[si].windows@;
            assert(newwin =~= oldwin.update(f as int, b).update(g as int, a));
            // the stacking order is a permutation: same membership
            assert forall|x: u64| newwin.contains(x) implies oldwin.contains(x) by {
                let k = choose|k: int| 0 <= k < newwin.len() && newwin[k] == x;
                if k == f as int {
                    assert(oldwin[g as int] == x);
                } else if k == g as int {
                    assert(oldwin[f as int] == x);
                } else {
                    assert(oldwin[k] == x);
                }
            }
            assert forall|x: u64| oldwin.contains(x) implies newwin.contains(x) by {
                let k = choose|k: int| 0 <= k < oldwin.len() && oldwin[k] == x;
                if k == f as int {
                    assert(newwin[g as int] == x);
                } else if k == g as int {
                    assert(newwin[f as int] == x);
                } else {
                    assert(newwin[k] == x);
                }
            }
            assert forall|i: int| 0 <= i < nv.len() implies (#[trigger] nv[i]).wf() by {
                if i == si {
                    assert(ov[si].wf());
                    assert forall|p: int, q: int|
                        0 <= p < q < newwin.len() implies newwin[p] != newwin[q] by {
                        let p2 = if p == f as int {
                            g as int
                        } else if p == g as int {
                            f as int
                        } else {
                            p
                        };
                        let q2 = if q == f as int {
                            g as int
                        } else if q == g as int {
                            f as int
                        } else {
                            q
                        };
                        assert(newwin[p] == oldwin[p2]);
                        assert(newwin[q] == oldwin[q2]);
                    }
                } else {
                    assert(nv[i] == ov[i]);
                }
            }
            assert forall|i: int, j: int|
                0 <= i < nv.len() && 0 <= j < nv[i].windows@.len() implies self.index_maps(
                #[trigger] nv[i].windows@[j], i) by {
                let x = nv[i].windows@[j];
                if i == si {
                    assert(oldwin.contains(x));
                    let k = choose|k: int| 0 <= k < oldwin.len() && oldwin[k] == x;
                    assert(old(self).index_maps(old(self).workspaces@[si].windows@[k], si));
                } else {
                    assert(old(self).index_maps(old(self).workspaces@[i].windows@[j], i));
                }
                let m = choose|m: int|
                    0 <= m < old(self).index@.len() && (#[trigger] old(self).index@[m]).0 == x
                        && old(self).index@[m].1 == i;
                assert(self.index@[m].0 == x && self.index@[m].1 == i);
            }
        }
    }

    /// The window whose destruction should be requested: the focused
    /// window of the current screen's visible workspace. Emitting the close
    /// request is the shell's transport I/O; the window leaves the set only
    /// when the transport confirms destruction, through `remove_window`.
    pub fn kill_focused(&self) -> (r: Option<u64>)
        requires
            self.wf(),
        ensures
            self.workspaces@[self.visible_tag()].windows@.len() == 0 ==> r is None,
            self.workspaces@[self.visible_tag()].windows@.len() > 0 ==> r == Some(
                self.workspaces@[self.visible_tag()].windows@[self.workspaces@[self.visible_tag()].focus as int],
            ),
    {
        let s = self.screens[self.current].visible;
        if self.workspaces[s].windows.len() == 0 {
            None
        } else {
            let f = self.workspaces[s].focus;
            Some(self.workspaces[s].windows[f])
        }
    }

    /// Swaps the current screen's visible workspace with the one it showed
    /// before (the two-entry visit history).
    pub fn toggle_tag(&mut self)
        requires
            old(self).wf(),
        ensures
            final(self).wf(),
            final(self).workspaces@ == old(self).workspaces@,
            final(self).index@ == old(self).index@,
            final(self).current == old(self).current,
            final(self).screens@ == old(self).screens@.update(
                old(self).current as int,
                ScreenState {
                    rect: old(self).screens@[old(self).current as int].rect,
                    visible: old(self).screens@[old(self).current as int].previous,
                    previous: old(self).screens@[old(self).current as int].visible,
                },
            ),
    {
        let cur = self.current;
        let v = self.screens[cur].visible;
        let p = self.screens[cur].previous;
        self.screens[cur].visible = p;
        self.screens[cur].previous = v;
        proof {
            assert(self.screens@ =~= old(self).screens@.update(
                cur as int,
                ScreenState {
                    rect: old(self).screens@[cur as int].rect,
                    visible: p,
                    previous: v,
                },
            ));
            lemma_same_screens_wf(*old(self), *self);
        }
    }

    /// Makes the workspace named `tag` visible on the current screen,
    /// recording the one it replaces in the visit history. An unknown tag
    /// is refused and the state left untouched.
    pub fn focus_tag(&mut self, tag: &str) -> (r: Result<(), WmError>)
        requires
            old(self).wf(),
        ensures
            final(self).wf(),
            r is Ok <==> old(self).has_tag(tag@),
            r is Err ==> r == Err::<(), WmError>(WmError::InvalidTagName) && *final(self) == *old(
                self,
            ),
            r is Ok ==> final(self).workspaces@ == old(self).workspaces@ && final(self).index@
                == old(self).index@ && final(self).current == old(self).current,
            r is Ok ==> final(self).screens@ == old(self).screens@.update(
                old(self).current as int,
                ScreenState {
                    rect: old(self).screens@[old(self).current as int].rect,
                    visible: old(self).tag_index(tag@) as usize,
                    previous: old(self).screens@[old(self).current as int].visible,
                },
            ),
    {
        let t = match self.find_tag(tag) {
            Some(t) => t,
            None => {
                return Err(WmError::InvalidTagName);
            },
        };
        proof {
            let t0 = old(self).tag_index(tag@);
            assert(0 <= t0 < self.workspaces@.len() && self.workspaces@[t0].name@ == tag@);
            assert(t0 == t as int);
        }
        let cur = self.current;
        let v = self.screens[cur].visible;
        self.screens[cur].visible = t;
        self.screens[cur].previous = v;
        proof {
            assert(self.screens@ =~= old(self).screens@.update(
                cur as int,
                ScreenState {
                    rect: old(self).screens@[cur as int].rect,
                    visible: t,
                    previous: v,
                },
            ));
            lemma_same_screens_wf(*old(self), *self);
        }
        Ok(())
    }

    /// Moves the focused window of the current screen's visible workspace
    /// to the workspace named `tag`, inserting it there as most recently
    /// focused. Nothing is focused (empty visible workspace) or the
    /// destination is the visible workspace itself: a no-op. An unknown
    /// tag is refused and the state left untouched.
    pub fn move_focused_to_tag(&mut self, tag: &str) -> (r: Result<(), WmError>)
        requires
            old(self).wf(),
        ensures
            final(self).wf(),
            r is Ok <==> old(self).has_tag(tag@),
            r is Err ==> r == Err::<(), WmError>(WmError::InvalidTagName) && *final(self) == *old(
                self,
            ),
            r is Ok && (old(self).workspaces@[old(self).visible_tag()].windows@.len() == 0 || old(
                self,
            ).tag_index(tag@) == old(self).visible_tag()) ==> *final(self) == *old(self),
            r is Ok && old(self).workspaces@[old(self).visible_tag()].windows@.len() > 0 && old(
                self,
            ).tag_index(tag@) != old(self).visible_tag() ==> moved_contract(
                *old(self),
                *final(self),
                old(self).tag_index(tag@),
            ),
    {
        let d = match self.find_tag(tag) {
            Some(d) => d,
            None => {
                return Err(WmError::InvalidTagName);
            },
        };
        proof {
            let t0 = old(self).tag_index(tag@);
            assert(0 <= t0 < self.workspaces@.len() && self.workspaces@[t0].name@ == tag@);
            assert(t0 == d as int);
        }
        let vt = self.screens[self.current].visible;
        let n = self.workspaces[vt].windows.len();
        if n == 0 || d == vt {
            return Ok(());
        }
        let f = self.workspaces[vt].focus;
        let w = self.workspaces[vt].windows[f];
        proof {
            assert(old(self).index_maps(old(self).workspaces@[vt as int].windows@[f as int], vt as int));
        }
        let e = match self.find_entry(w) {
            Some(e) => e,
            None => {
                proof {
                    let m = choose|m: int|
                        0 <= m < old(self).index@.len() && (#[trigger] old(self).index@[m]).0 == w
                            && old(self).index@[m].1 == vt as int;
                    assert(self.index@[m].0 == w);
                    assert(false);
                }
                return Err(WmError::InvalidTagName);
            },
        };
        let ghost oldcs = *old(self);
        let ghost ti = vt as int;
        let ghost di = d as int;
        let ghost ei = e as int;
        let ghost fi = f as int;
        let ghost oldwin = oldcs.workspaces@[ti].windows@;
        let ghost olddst = oldcs.workspaces@[di].windows@;
        proof {
            // w's one index entry points at the visible workspace
            let m = choose|m: int|
                0 <= m < oldcs.index@.len() && (#[trigger] oldcs.index@[m]).0 == w
                    && oldcs.index@[m].1 == ti;
            assert(m == ei);
            assert(oldcs.index@[ei].1 == vt);
        }
        self.workspaces[vt].windows.remove(f);
        let n2 = self.workspaces[vt].windows.len();
        self.workspaces[vt].focus = if n2 == 0 {
            0
        } else if f < n2 {
            f
        } else {
            n2 - 1
        };
        self.workspaces[d].windows.insert(0, w);
        self.workspaces[d].focus = 0;
        self.index[e] = (w, d);
        proof {
            let ov = oldcs.workspaces@;
            let nv = self.workspaces@;
            let oi = oldcs.index@;
            let ni = self.index@;
            let newwin = nv[ti].windows@;
            let newdst = nv[di].windows@;
            oldwin.remove_ensures(fi);
            olddst.insert_ensures(0, w);
            assert(newwin =~= oldwin.remove(fi));
            assert(newdst =~= seq![w] + olddst);
            assert(ni =~= oi.update(ei, (w, d)));
            assert(forall|i: int| 0 <= i < ov.len() && i != ti && i != di ==> nv[i] == ov[i]);
            // w was not on the destination workspace
            assert forall|j: int| 0 <= j < olddst.len() implies olddst[j] != w by {
                if olddst[j] == w {
                    assert(oldcs.index_maps(ov[di].windows@[j], di));
                    let m = choose|m: int|
                        0 <= m < oi.len() && (#[trigger] oi[m]).0 == w && oi[m].1 == di;
                    assert(m == ei);
                }
            }
            // workspaces stay well formed
            assert forall|i: int| 0 <= i < nv.len() implies (#[trigger] nv[i]).wf() by {
                if i == ti {
                    assert(ov[ti].wf());
                    assert forall|p: int, q: int|
                        0 <= p < q < newwin.len() implies newwin[p] != newwin[q] by {
                        let p2 = if p < fi { p } else { p + 1 };
                        let q2 = if q < fi { q } else { q + 1 };
                        assert(newwin[p] == oldwin[p2]);
                        assert(newwin[q] == oldwin[q2]);
                    }
                } else if i == di {
                    assert(ov[di].wf());
                    assert forall|p: int, q: int|
                        0 <= p < q < newdst.len() implies newdst[p] != newdst[q] by {
                        if p == 0 {
                            assert(newdst[q] == olddst[q - 1]);
                        } else {
                            assert(newdst[p] == olddst[p - 1]);
                            assert(newdst[q] == olddst[q - 1]);
                        }
                    }
                } else {
                    assert(nv[i] == ov[i]);
                }
            }
            // index entries still point at workspaces that hold them
            assert forall|e2: int| 0 <= e2 < ni.len() implies (#[trigger] ni[e2]).1 < nv.len()
                && nv[ni[e2].1 as int].windows@.contains(ni[e2].0) by {
                if e2 == ei {
                    assert(ni[e2] == (w, d));
                    assert(newdst[0] == w);
                } else {
                    assert(ni[e2] == oi[e2]);
                    assert(oi[e2].0 != w);
                    let wi = oi[e2].1 as int;
                    if wi == ti {
                        let k = choose|k: int| 0 <= k < oldwin.len() && oldwin[k] == oi[e2].0;
                        assert(k != fi);
                        let k2 = if k < fi { k } else { k - 1 };
                        assert(newwin[k2] == oldwin[k]);
                    } else if wi == di {
                        let k = choose|k: int| 0 <= k < olddst.len() && olddst[k] == oi[e2].0;
                        assert(newdst[k + 1] == olddst[k]);
                    } else {
                        assert(nv[wi] == ov[wi]);
                    }
                }
            }
            // still at most one entry per window: the keys are unchanged
            assert forall|e2: int, f2: int|
                0 <= e2 < f2 < ni.len() implies (#[trigger] ni[e2]).0 != (#[trigger] ni[f2]).0 by {
                assert(ni[e2].0 == oi[e2].0);
                assert(ni[f2].0 == oi[f2].0);
            }
            // every placed window still has its entry
            assert forall|i: int, j: int|
                0 <= i < nv.len() && 0 <= j < nv[i].windows@.len() implies self.index_maps(
                #[trigger] nv[i].windows@[j], i) by {
                if i == di && j == 0 {
                    assert(ni[ei].0 == w && ni[ei].1 == di);
                } else {
                    let x = if i == ti {
                        if j < fi {
                            oldwin[j]
                        } else {
                            oldwin[j + 1]
                        }
                    } else if i == di {
                        olddst[j - 1]
                    } else {
                        ov[i].windows@[j]
                    };
                    assert(nv[i].windows@[j] == x);
                    if i == ti {
                        assert(ov[ti].wf());
                        assert(x != w);
                        assert(oldcs.index_maps(ov[ti].windows@[if j < fi {
                            j
                        } else {
                            j + 1
                        }], ti));
                    } else if i == di {
                        assert(x != w);
                        assert(oldcs.index_maps(ov[di].windows@[j - 1], di));
                    } else {
                        assert(oldcs.index_maps(ov[i].windows@[j], i));
                    }
                    let m = choose|m: int|
                        0 <= m < oi.len() && (#[trigger] oi[m]).0 == x && oi[m].1 == i;
                    assert(m != ei);
                    assert(ni[m].0 == x && ni[m].1 == i);
                }
            }
        }
        Ok(())
    }

    /// Moves the current pointer to the next screen in creation order,
    /// wrapping.
    pub fn next_screen(&mut self)
        requires
            old(self).wf(),
        ensures
            final(self).wf(),
            final(self).workspaces@ == old(self).workspaces@,
            final(self).index@ == old(self).index@,
            final(self).screens@ == old(self).screens@,
            final(self).current == next_focus(
                old(self).current as int,
                old(self).screens@.len() as int,
            ),
    {
        let n = self.screens.len();
        if self.current + 1 == n {
            self.current = 0;
        } else {
            self.current = self.current + 1;
        }
        proof {
            lemma_same_screens_wf(*old(self), *self);
        }
    }

    /// Moves the current pointer to the previous screen in creation order,
    /// wrapping.
    pub fn previous_screen(&mut self)
        requires
            old(self).wf(),
        ensures
            final(self).wf(),
            final(self).workspaces@ == old(self).workspaces@,
            final(self).index@ == old(self).index@,
            final(self).screens@ == old(self).screens@,
            final(self).current == prev_focus(
                old(self).current as int,
                old(self).screens@.len() as int,
            ),
    {
        let n = self.screens.len();
        if self.current == 0 {
            self.current = n - 1;
        } else {
            self.current = self.current - 1;
        }
        proof {
            lemma_same_screens_wf(*old(self), *self);
        }
    }
}

/// What a focus rotation changes: with at most one visible window nothing;
/// otherwise only the visible workspace's focus cursor, one step down
/// (`down`) or up the stacking order, wrapping.
pub open spec fn focus_contract(a: ClientSet, b: ClientSet, down: bool) -> bool {
    let vt = a.visible_tag();
    let n = a.workspaces@[vt].windows@.len() as int;
    let f = a.workspaces@[vt].focus as int;
    if n <= 1 {
        b == a
    } else {
        &&& b.index@ == a.index@
        &&& b.screens@ == a.screens@
        &&& b.current == a.current
        &&& b.workspaces@.len() == a.workspaces@.len()
        &&& forall|i: int|
            0 <= i < a.workspaces@.len() && i != vt ==> b.workspaces@[i] == a.workspaces@[i]
        &&& b.workspaces@[vt].name@ == a.workspaces@[vt].name@
        &&& b.workspaces@[vt].windows@ == a.workspaces@[vt].windows@
        &&& b.workspaces@[vt].focus == if down {
            next_focus(f, n)
        } else {
            prev_focus(f, n)
        }
    }
}

/// What a swap changes: with at most one visible window nothing; otherwise
/// the focused window trades places with its neighbour below (`down`) or
/// above, wrapping, and keeps the focus.
pub open spec fn swap_contract(a: ClientSet, b: ClientSet, down: bool) -> bool {
    let vt = a.visible_tag();
    let win = a.workspaces@[vt].windows@;
    let n = win.len() as int;
    let f = a.workspaces@[vt].focus as int;
    let g = if down {
        next_focus(f, n)
    } else {
        prev_focus(f, n)
    };
    if n <= 1 {
        b == a
    } else {
        &&& b.index@ == a.index@
        &&& b.screens@ == a.screens@
        &&& b.current == a.current
        &&& b.workspaces@.len() == a.workspaces@.len()
        &&& forall|i: int|
            0 <= i < a.workspaces@.len() && i != vt ==> b.workspaces@[i] == a.workspaces@[i]
        &&& b.workspaces@[vt].name@ == a.workspaces@[vt].name@
        &&& b.workspaces@[vt].focus == g
        &&& b.workspaces@[vt].windows@ == win.update(f, win[g]).update(g, win[f])
    }
}

/// What moving the focused window to workspace `d` changes: it leaves the
/// visible workspace's stacking order (focus falling to the previously
/// adjacent entry) and arrives at the front of `d`'s, focused there; its
/// index entry follows it; the screens and every other workspace stay.
pub open spec fn moved_contract(a: ClientSet, b: ClientSet, d: int) -> bool {
    let vt = a.visible_tag();
    let win = a.workspaces@[vt].windows@;
    let f = a.workspaces@[vt].focus as int;
    let w = win[f];
    &&& b.screens@ == a.screens@
    &&& b.current == a.current
    &&& b.workspaces@.len() == a.workspaces@.len()
    &&& forall|i: int|
        0 <= i < a.workspaces@.len() && i != vt && i != d ==> b.workspaces@[i] == a.workspaces@[i]
    &&& b.workspaces@[vt].name@ == a.workspaces@[vt].name@
    &&& b.workspaces@[vt].windows@ == win.remove(f)
    &&& b.workspaces@[vt].focus == fix_focus(f, f, win.len() - 1)
    &&& b.workspaces@[d].name@ == a.workspaces@[d].name@
    &&& b.workspaces@[d].windows@ == seq![w] + a.workspaces@[d].windows@
    &&& b.workspaces@[d].focus == 0
    &&& b.index_maps(w, d)
}

/// Rotating focus down and then up on the same workspace hands focus back
/// to the original window whenever the workspace shows at least two
/// windows: the stacking order is untouched, the cursor returns to where
/// it was, and nothing else in the client set moves.
pub proof fn lemma_focus_cycle(a: ClientSet, b: ClientSet, c: ClientSet)
    requires
        a.wf(),
        a.workspaces@[a.visible_tag()].windows@.len() >= 2,
        focus_contract(a, b, true),
        focus_contract(b, c, false),
    ensures
        c.workspaces@[a.visible_tag()].windows@ == a.workspaces@[a.visible_tag()].windows@,
        c.workspaces@[a.visible_tag()].focus == a.workspaces@[a.visible_tag()].focus,
        forall|i: int|
            0 <= i < a.workspaces@.len() && i != a.visible_tag() ==> c.workspaces@[i]
                == a.workspaces@[i],
        c.index@ == a.index@,
        c.screens@ == a.screens@,
        c.current == a.current,
{
    let vt = a.visible_tag();
    let f = a.workspaces@[vt].focus as int;
    let n = a.workspaces@[vt].windows@.len() as int;
    assert(b.visible_tag() == vt);
    lemma_focus_round_trip(f, n);
}

/// The same round trip the other way: up and then down also hands focus
/// back, under the same conditions.
pub proof fn lemma_focus_cycle_rev(a: ClientSet, b: ClientSet, c: ClientSet)
    requires
        a.wf(),
        a.workspaces@[a.visible_tag()].windows@.len() >= 2,
        focus_contract(a, b, false),
        focus_contract(b, c, true),
    ensures
        c.workspaces@[a.visible_tag()].windows@ == a.workspaces@[a.visible_tag()].windows@,
        c.workspaces@[a.visible_tag()].focus == a.workspaces@[a.visible_tag()].focus,
        forall|i: int|
            0 <= i < a.workspaces@.len() && i != a.visible_tag() ==> c.workspaces@[i]
                == a.workspaces@[i],
        c.index@ == a.index@,
        c.screens@ == a.screens@,
        c.current == a.current,
{
    let vt = a.visible_tag();
    let f = a.workspaces@[vt].focus as int;
    let n = a.workspaces@[vt].windows@.len() as int;
    assert(b.visible_tag() == vt);
    lemma_focus_round_trip(f, n);
}

/// A state change that touches only which workspaces the screens show,
/// staying in range, keeps `wf`.
proof fn lemma_same_screens_wf(a: ClientSet, b: ClientSet)
    requires
        a.wf(),
        b.workspaces@ == a.workspaces@,
        b.index@ == a.index@,
        b.current < b.screens@.len(),
        b.screens@.len() == a.screens@.len(),
        forall|s: int|
            0 <= s < b.screens@.len() ==> (#[trigger] b.screens@[s]).visible < a.workspaces@.len()
                && b.screens@[s].previous < a.workspaces@.len(),
    ensures
        b.wf(),
{
    assert forall|i: int, j: int|
        0 <= i < b.workspaces@.len() && 0 <= j < b.workspaces@[i].windows@.len() implies b.index_maps(
        #[trigger] b.workspaces@[i].windows@[j], i) by {
        assert(a.index_maps(a.workspaces@[i].windows@[j], i));
    }
}

/// A state change that leaves the window placement, the index and the
/// screens alone — only focus cursors moved within range — keeps `wf`.
proof fn lemma_same_windows_wf(a: ClientSet, b: ClientSet)
    requires
        a.wf(),
        b.index@ == a.index@,
        b.screens@ == a.screens@,
        b.current == a.current,
        b.workspaces@.len() == a.workspaces@.len(),
        forall|i: int|
            0 <= i < a.workspaces@.len() ==> (#[trigger] b.workspaces@[i]).windows@
                == a.workspaces@[i].windows@ && b.workspaces@[i].name@ == a.workspaces@[i].name@,
        forall|i: int| 0 <= i < b.workspaces@.len() ==> (#[trigger] b.workspaces@[i]).wf(),
    ensures
        b.wf(),
{
    assert forall|i: int, j: int|
        0 <= i < b.workspaces@.len() && 0 <= j < b.workspaces@[i].windows@.len() implies b.index_maps(
        #[trigger] b.workspaces@[i].windows@[j], i) by {
        assert(a.index_maps(a.workspaces@[i].windows@[j], i));
    }
    assert forall|e: int| 0 <= e < b.index@.len() implies (#[trigger] b.index@[e]).1
        < b.workspaces@.len() && b.workspaces@[b.index@[e].1 as int].windows@.contains(
        b.index@[e].0,
    ) by {
        assert(a.index@[e].1 < a.workspaces@.len());
    }
}

/// Where the focus cursor lands after removing the window at `removed`
/// from a workspace whose stack then has `new_len` windows, given the old
/// cursor `f`: the previously adjacent entry keeps focus, the cursor
/// stepping back only when it pointed past the new end.
pub open spec fn fix_focus(f: int, removed: int, new_len: int) -> int {
    if new_len == 0 {
        0
    } else if removed < f {
        f - 1
    } else if f < new_len {
        f
    } else {
        new_len - 1
    }
}

} // verus!
