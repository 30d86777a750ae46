//! Cached window data: the collected window records, the stacking order, the
//! filtered view and the pinned set, kept in sync with the server by the
//! host.

use vstd::prelude::*;
use std::collections::{HashMap, HashSet};
use crate::types::{Window, WindowId, WindowStackView};

verus! {

broadcast use vstd::std_specs::hash::group_hash_axioms;

/// The ids of `s` that are not `id`, in order.
pub open spec fn keep_except(s: Seq<WindowId>, id: WindowId) -> Seq<WindowId>
    decreases s,
{
    if s.len() == 0 {
        Seq::empty()
    } else if s[0] == id {
        keep_except(s.skip(1), id)
    } else {
        seq![s[0]] + keep_except(s.skip(1), id)
    }
}

/// Remove every occurrence of `id` from the vector, keeping order.
#[verifier::loop_isolation(false)]
fn retain_except(v: &mut Vec<WindowId>, id: WindowId)
    ensures
        final(v)@ == keep_except(old(v)@, id),
{
    let mut out: Vec<WindowId> = Vec::new();
    let mut i: usize = 0;
    let ghost orig = v@;
    proof {
        assert(orig.skip(0) =~= orig);
        assert(out@ + keep_except(orig.skip(0), id) =~= keep_except(orig, id));
    }
    while i < v.len()
        invariant
            0 <= i <= v.len(),
            v@ == orig,
            keep_except(orig, id) == out@ + keep_except(orig.skip(i as int), id),
        decreases v.len() - i,
    {
        proof {
            assert(orig.skip(i as int)[0] == orig[i as int]);
            assert(orig.skip(i as int).skip(1) =~= orig.skip(i as int + 1));
        }
        if v[i] != id {
            out.push(v[i]);
        }
        proof {
            assert(keep_except(orig, id) =~= out@ + keep_except(orig.skip(i as int + 1), id));
        }
        i = i + 1;
    }
    proof {
        assert(keep_except(orig.skip(orig.len() as int), id) =~= Seq::<WindowId>::empty());
        assert(out@ + Seq::<WindowId>::empty() =~= out@);
    }
    *v = out;
}

/// Cached window data, organized for the monitoring host: the collected
/// window records, the stacking order (bottom to top), the filtered view and
/// the set of pinned windows.
pub struct WindowsLayout {
    /// Collected window records, by id.
    pub windows: HashMap<WindowId, Window>,
    /// A view maintained in stacking order (bottom to top).
    pub stack_view: WindowStackView,
    /// The ids that pass the current filter, in stacking order.
    pub filtered_view: WindowStackView,
    /// The pinned windows.
    pub pinned_windows: HashSet<WindowId>,
}

impl WindowsLayout {
    /// An empty layout.
    pub fn new() -> (l: WindowsLayout)
        ensures
            l.windows@ == Map::<WindowId, Window>::empty(),
            l.stack_view@.len() == 0,
            l.filtered_view@.len() == 0,
            l.pinned_windows@ == Set::<WindowId>::empty(),
    {
        WindowsLayout {
            windows: HashMap::new(),
            stack_view: Vec::new(),
            filtered_view: Vec::new(),
            pinned_windows: HashSet::new(),
        }
    }

    /// Forget everything.
    pub fn clear(&mut self)
        ensures
            final(self).windows@ == Map::<WindowId, Window>::empty(),
            final(self).stack_view@.len() == 0,
            final(self).filtered_view@.len() == 0,
            final(self).pinned_windows@ == Set::<WindowId>::empty(),
    {
        self.windows.clear();
        self.stack_view.clear();
        self.filtered_view.clear();
        self.pinned_windows.clear();
    }

    /// The record of a window, if collected.
    pub fn get_window(&self, id: WindowId) -> (r: Option<&Window>)
        ensures
            match r {
                Some(w) => self.windows@.contains_key(id) && *w == self.windows@[id],
                None => !self.windows@.contains_key(id),
            },
    {
        self.windows.get(&id)
    }

    /// Store a window record under its id.
    pub fn insert_window(&mut self, window: Window)
        ensures
            final(self).windows@ == old(self).windows@.insert(window.id, window),
            final(self).stack_view == old(self).stack_view,
            final(self).filtered_view == old(self).filtered_view,
            final(self).pinned_windows == old(self).pinned_windows,
    {
        let id = window.id;
        self.windows.insert(id, window);
    }

    /// Forget a window: its record, and every occurrence of it in the stack,
    /// the filtered view and the pinned set.
    pub fn remove_window(&mut self, id: WindowId)
        ensures
            final(self).windows@ == old(self).windows@.remove(id),
            final(self).stack_view@ == keep_except(old(self).stack_view@, id),
            final(self).filtered_view@ == keep_except(old(self).filtered_view@, id),
            final(self).pinned_windows@ == old(self).pinned_windows@.remove(id),
    {
        self.windows.remove(&id);
        retain_except(&mut self.stack_view, id);
        retain_except(&mut self.filtered_view, id);
        self.pinned_windows.remove(&id);
    }

    /// How many window records are held.
    pub fn window_count(&self) -> (n: usize)
        ensures
            n == self.windows@.len(),
    {
        self.windows.len()
    }

    /// Is the window part of the filtered view?
    pub fn is_window_in_filtered_view(&self, id: WindowId) -> (r: bool)
        ensures
            r == self.filtered_view@.contains(id),
    {
        let mut i: usize = 0;
        while i < self.filtered_view.len()
            invariant
                0 <= i <= self.filtered_view@.len(),
                forall|k: int| 0 <= k < i ==> self.filtered_view@[k] != id,
            decreases self.filtered_view@.len() - i,
        {
            if self.filtered_view[i] == id {
                return true;
            }
            i = i + 1;
        }
        false
    }

    /// Pin a window.
    pub fn pin_window(&mut self, id: WindowId)
        ensures
            final(self).pinned_windows@ == old(self).pinned_windows@.insert(id),
            final(self).windows == old(self).windows,
            final(self).stack_view == old(self).stack_view,
            final(self).filtered_view == old(self).filtered_view,
    {
        self.pinned_windows.insert(id);
    }

    /// Unpin a window.
    pub fn unpin_window(&mut self, id: WindowId)
        ensures
            final(self).pinned_windows@ == old(self).pinned_windows@.remove(id),
            final(self).windows == old(self).windows,
            final(self).stack_view == old(self).stack_view,
            final(self).filtered_view == old(self).filtered_view,
    {
        self.pinned_windows.remove(&id);
    }

    /// Is the window pinned?
    pub fn is_window_pinned(&self, id: WindowId) -> (r: bool)
        ensures
            r == self.pinned_windows@.contains(id),
    {
        self.pinned_windows.contains(&id)
    }

    /// The pinned windows.
    pub fn get_pinned_windows(&self) -> (r: &HashSet<WindowId>)
        ensures
            r@ == self.pinned_windows@,
    {
        &self.pinned_windows
    }

    /// Flip the pin state of a window.
    pub fn toggle_pin(&mut self, id: WindowId)
        ensures
            final(self).pinned_windows@ == (if old(self).pinned_windows@.contains(id) {
                old(self).pinned_windows@.remove(id)
            } else {
                old(self).pinned_windows@.insert(id)
            }),
            final(self).windows == old(self).windows,
            final(self).stack_view == old(self).stack_view,
            final(self).filtered_view == old(self).filtered_view,
    {
        if self.is_window_pinned(id) {
            self.unpin_window(id);
        } else {
            self.pin_window(id);
        }
    }
}

impl Default for WindowsLayout {
    fn default() -> Self {
        Self::new()
    }
}

} // verus!
