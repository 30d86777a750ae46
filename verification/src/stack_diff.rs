//! Incremental window-stack difference reports: what was added, removed,
//! moved or left in place since the previous query, with a bounded memo of
//! past results keyed by the queried stack.

use vstd::prelude::*;
use crate::types::WindowId;

verus! {

/// The report of one stack comparison.
#[derive(Debug, PartialEq, Eq)]
pub struct StackDiff {
    /// Windows that were added.
    pub added: Vec<WindowId>,
    /// Windows that were removed, ordered by their former position.
    pub removed: Vec<WindowId>,
    /// Windows that changed position: (id, old position, new position).
    pub moved: Vec<(WindowId, usize, usize)>,
    /// Windows that remain in the same position.
    pub unchanged: Vec<WindowId>,
}

/// Mathematical image of a stack difference report.
pub struct DiffView {
    pub added: Seq<WindowId>,
    pub removed: Seq<WindowId>,
    pub moved: Seq<(WindowId, usize, usize)>,
    pub unchanged: Seq<WindowId>,
}

impl View for StackDiff {
    type V = DiffView;

    open spec fn view(&self) -> DiffView {
        DiffView {
            added: self.added@,
            removed: self.removed@,
            moved: self.moved@,
            unchanged: self.unchanged@,
        }
    }
}

/// Index of the last occurrence of `id` in `s`, or -1 when absent; ids are
/// mapped to their position the way repeated insertion into a position map
/// would leave them.
pub open spec fn last_index_of(s: Seq<WindowId>, id: WindowId) -> int
    decreases s.len(),
{
    if s.len() == 0 {
        -1
    } else if s.last() == id {
        s.len() - 1
    } else {
        last_index_of(s.drop_last(), id)
    }
}

pub proof fn lemma_last_index_contains(s: Seq<WindowId>, id: WindowId)
    ensures
        last_index_of(s, id) == -1 <==> !s.contains(id),
        last_index_of(s, id) >= 0 ==> 0 <= last_index_of(s, id) < s.len() && s[last_index_of(
            s,
            id,
        )] == id,
    decreases s.len(),
{
    if s.len() > 0 {
        lemma_last_index_contains(s.drop_last(), id);
        if s.last() == id {
            assert(s.contains(id));
        } else {
            if s.contains(id) {
                let i = choose|i: int| 0 <= i < s.len() && s[i] == id;
                assert(s.drop_last()[i] == id);
                assert(s.drop_last().contains(id));
            }
            if s.drop_last().contains(id) {
                let i = choose|i: int| 0 <= i < s.drop_last().len() && s.drop_last()[i] == id;
                assert(s[i] == id);
                assert(s.contains(id));
            }
        }
    }
}

/// The ids of `cur` from position `pos` on that were not in `prev`, in stack
/// order.
pub open spec fn added_spec(prev: Seq<WindowId>, cur: Seq<WindowId>, pos: int) -> Seq<WindowId>
    decreases cur.len() - pos,
{
    if pos < 0 || pos >= cur.len() {
        Seq::empty()
    } else {
        let rest = added_spec(prev, cur, pos + 1);
        if !prev.contains(cur[pos]) {
            seq![cur[pos]] + rest
        } else {
            rest
        }
    }
}

/// The ids of `cur` from position `pos` on that kept their previous position.
pub open spec fn unchanged_spec(prev: Seq<WindowId>, cur: Seq<WindowId>, pos: int) -> Seq<
    WindowId,
>
    decreases cur.len() - pos,
{
    if pos < 0 || pos >= cur.len() {
        Seq::empty()
    } else {
        let rest = unchanged_spec(prev, cur, pos + 1);
        if last_index_of(prev, cur[pos]) == pos {
            seq![cur[pos]] + rest
        } else {
            rest
        }
    }
}

/// The position changes of `cur` from position `pos` on: ids present before
/// but at another position, as (id, old position, new position).
pub open spec fn moved_spec(prev: Seq<WindowId>, cur: Seq<WindowId>, pos: int) -> Seq<
    (WindowId, usize, usize),
>
    decreases cur.len() - pos,
{
    if pos < 0 || pos >= cur.len() {
        Seq::empty()
    } else {
        let rest = moved_spec(prev, cur, pos + 1);
        let q = last_index_of(prev, cur[pos]);
        if q >= 0 && q != pos {
            seq![(cur[pos], q as usize, pos as usize)] + rest
        } else {
            rest
        }
    }
}

/// The ids of `prev` from position `pos` on that are gone from `cur`,
/// ordered by their former position, one entry per id.
pub open spec fn removed_spec(prev: Seq<WindowId>, cur: Seq<WindowId>, pos: int) -> Seq<WindowId>
    decreases prev.len() - pos,
{
    if pos < 0 || pos >= prev.len() {
        Seq::empty()
    } else {
        let rest = removed_spec(prev, cur, pos + 1);
        if last_index_of(prev, prev[pos]) == pos && !cur.contains(prev[pos]) {
            seq![prev[pos]] + rest
        } else {
            rest
        }
    }
}

/// The difference report for querying `cur` after `prev`: on the first query
/// (no previous stack) or an unchanged stack, everything is unchanged;
/// otherwise each position of `cur` is classified as unchanged, moved or
/// added, and the vanished ids of `prev` are removed.
pub open spec fn diff_spec(prev: Seq<WindowId>, cur: Seq<WindowId>) -> DiffView {
    if prev.len() == 0 || prev == cur {
        DiffView {
            added: Seq::empty(),
            removed: Seq::empty(),
            moved: Seq::empty(),
            unchanged: cur,
        }
    } else {
        DiffView {
            added: added_spec(prev, cur, 0),
            removed: removed_spec(prev, cur, 0),
            moved: moved_spec(prev, cur, 0),
            unchanged: unchanged_spec(prev, cur, 0),
        }
    }
}

/// The first memo entry whose queried stack equals `key`.
pub open spec fn cache_find(c: Seq<(Seq<WindowId>, DiffView)>, key: Seq<WindowId>) -> Option<
    DiffView,
>
    decreases c.len(),
{
    if c.len() == 0 {
        None
    } else if c[0].0 == key {
        Some(c[0].1)
    } else {
        cache_find(c.skip(1), key)
    }
}

/// A stack difference calculator that remembers the previously queried
/// stack and memoizes past reports, the memo cleared whenever it outgrows
/// 100 entries.
#[derive(Debug)]
pub struct CachedStackDiff {
    previous_stack: Vec<WindowId>,
    diff_cache: Vec<(Vec<WindowId>, StackDiff)>,
}

/// Copy a vector of ids.
fn copy_ids(v: &Vec<WindowId>) -> (r: Vec<WindowId>)
    ensures
        r@ == v@,
{
    let mut r: Vec<WindowId> = Vec::new();
    let mut i: usize = 0;
    while i < v.len()
        invariant
            0 <= i <= v.len(),
            r@ == v@.take(i as int),
        decreases v.len() - i,
    {
        r.push(v[i]);
        proof {
            assert(v@.take(i as int).push(v@[i as int]) =~= v@.take(i as int + 1));
        }
        i = i + 1;
    }
    proof {
        assert(v@.take(v@.len() as int) =~= v@);
    }
    r
}

/// Copy a vector of moves.
fn copy_moves(v: &Vec<(WindowId, usize, usize)>) -> (r: Vec<(WindowId, usize, usize)>)
    ensures
        r@ == v@,
{
    let mut r: Vec<(WindowId, usize, usize)> = Vec::new();
    let mut i: usize = 0;
    while i < v.len()
        invariant
            0 <= i <= v.len(),
            r@ == v@.take(i as int),
        decreases v.len() - i,
    {
        r.push(v[i]);
        proof {
            assert(v@.take(i as int).push(v@[i as int]) =~= v@.take(i as int + 1));
        }
        i = i + 1;
    }
    proof {
        assert(v@.take(v@.len() as int) =~= v@);
    }
    r
}

/// Copy a difference report.
fn copy_diff(d: &StackDiff) -> (r: StackDiff)
    ensures
        r@ == d@,
{
    StackDiff {
        added: copy_ids(&d.added),
        removed: copy_ids(&d.removed),
        moved: copy_moves(&d.moved),
        unchanged: copy_ids(&d.unchanged),
    }
}

/// Are two id vectors equal?
fn ids_eq(a: &Vec<WindowId>, b: &Vec<WindowId>) -> (r: bool)
    ensures
        r == (a@ == b@),
{
    if a.len() != b.len() {
        proof {
            assert(a@.len() != b@.len());
        }
        return false;
    }
    let mut i: usize = 0;
    while i < a.len()
        invariant
            0 <= i <= a.len(),
            a.len() == b.len(),
            forall|k: int| 0 <= k < i ==> a@[k] == b@[k],
        decreases a.len() - i,
    {
        if a[i] != b[i] {
            return false;
        }
        i = i + 1;
    }
    proof {
        assert(a@ =~= b@);
    }
    true
}

/// Index of the last occurrence of `id` in `v`, if any.
fn last_index(v: &Vec<WindowId>, id: WindowId) -> (r: Option<usize>)
    ensures
        match r {
            Some(p) => last_index_of(v@, id) == p,
            None => last_index_of(v@, id) == -1,
        },
{
    let mut j: usize = v.len();
    proof {
        assert(v@.take(v@.len() as int) =~= v@);
    }
    while j > 0
        invariant
            0 <= j <= v.len(),
            last_index_of(v@, id) == last_index_of(v@.take(j as int), id),
        decreases j,
    {
        proof {
            assert(v@.take(j as int).last() == v@[j - 1]);
            assert(v@.take(j as int).drop_last() =~= v@.take(j as int - 1));
        }
        if v[j - 1] == id {
            return Some(j - 1);
        }
        j = j - 1;
    }
    proof {
        assert(v@.take(0).len() == 0);
    }
    None
}

/// Does `v` hold `id`?
fn ids_contains(v: &Vec<WindowId>, id: WindowId) -> (r: bool)
    ensures
        r == v@.contains(id),
{
    proof {
        lemma_last_index_contains(v@, id);
    }
    match last_index(v, id) {
        Some(_) => true,
        None => false,
    }
}

impl CachedStackDiff {
    /// The previously queried stack.
    pub closed spec fn prev_view(&self) -> Seq<WindowId> {
        self.previous_stack@
    }

    /// The memoized reports, in insertion order.
    pub closed spec fn cache_view(&self) -> Seq<(Seq<WindowId>, DiffView)> {
        self.diff_cache@.map_values(|e: (Vec<WindowId>, StackDiff)| (e.0@, e.1@))
    }

    /// A fresh calculator with no previous stack and an empty memo.
    pub fn new() -> (c: CachedStackDiff)
        ensures
            c.prev_view().len() == 0,
            c.cache_view().len() == 0,
    {
        let c = CachedStackDiff { previous_stack: Vec::new(), diff_cache: Vec::new() };
        proof {
            assert(c.cache_view() =~= Seq::<(Seq<WindowId>, DiffView)>::empty());
        }
        c
    }

    /// Look the current stack up in the memo.
    #[verifier::loop_isolation(false)]
    fn lookup(&self, current: &Vec<WindowId>) -> (r: Option<StackDiff>)
        ensures
            match cache_find(self.cache_view(), current@) {
                Some(d) => r matches Some(found) && found@ == d,
                None => r is None,
            },
    {
        let mut i: usize = 0;
        proof {
            assert(self.cache_view().skip(0) =~= self.cache_view());
        }
        while i < self.diff_cache.len()
            invariant
                0 <= i <= self.diff_cache.len(),
                cache_find(self.cache_view(), current@) == cache_find(
                    self.cache_view().skip(i as int),
                    current@,
                ),
            decreases self.diff_cache.len() - i,
        {
            proof {
                assert(self.cache_view().skip(i as int)[0] == self.cache_view()[i as int]);
                assert(self.cache_view().skip(i as int).skip(1) =~= self.cache_view().skip(
                    i as int + 1,
                ));
            }
            if ids_eq(&self.diff_cache[i].0, current) {
                return Some(copy_diff(&self.diff_cache[i].1));
            }
            i = i + 1;
        }
        proof {
            assert(self.cache_view().skip(self.cache_view().len() as int) =~= Seq::<
                (Seq<WindowId>, DiffView),
            >::empty());
        }
        None
    }

    /// Compute what changed between the previously queried stack and
    /// `current_stack`: a memoized report is returned as it was; otherwise
    /// the stacks are compared, the report is memoized (the memo cleared
    /// first once it exceeds 100 entries) and `current_stack` becomes the
    /// previous stack.
    #[verifier::loop_isolation(false)]
    pub fn compute_diff(&mut self, current_stack: &Vec<WindowId>) -> (d: StackDiff)
        ensures
            match cache_find(old(self).cache_view(), current_stack@) {
                Some(cached) => d@ == cached && final(self).prev_view() == old(self).prev_view()
                    && final(self).cache_view() == old(self).cache_view(),
                None => ({
                    let kept = if old(self).cache_view().len() > 100 {
                        Seq::<(Seq<WindowId>, DiffView)>::empty()
                    } else {
                        old(self).cache_view()
                    };
                    &&& d@ == diff_spec(old(self).prev_view(), current_stack@)
                    &&& final(self).prev_view() == current_stack@
                    &&& final(self).cache_view() == kept.push((current_stack@, d@))
                }),
            },
    {
        match self.lookup(current_stack) {
            Some(found) => {
                return found;
            },
            None => {},
        }
        let first = self.previous_stack.len() == 0;
        let same = ids_eq(&self.previous_stack, current_stack);
        let d: StackDiff = if first || same {
            StackDiff {
                added: Vec::new(),
                removed: Vec::new(),
                moved: Vec::new(),
                unchanged: copy_ids(current_stack),
            }
        } else {
            let mut added: Vec<WindowId> = Vec::new();
            let mut unchanged: Vec<WindowId> = Vec::new();
            let mut moved: Vec<(WindowId, usize, usize)> = Vec::new();
            let prev = &self.previous_stack;
            let cur = current_stack;
            let mut p: usize = 0;
            while p < cur.len()
                invariant
                    0 <= p <= cur.len(),
                    added_spec(prev@, cur@, 0) == added@ + added_spec(prev@, cur@, p as int),
                    unchanged_spec(prev@, cur@, 0) == unchanged@ + unchanged_spec(
                        prev@,
                        cur@,
                        p as int,
                    ),
                    moved_spec(prev@, cur@, 0) == moved@ + moved_spec(prev@, cur@, p as int),
                decreases cur.len() - p,
            {
                let id = cur[p];
                proof {
                    lemma_last_index_contains(prev@, id);
                }
                match last_index(prev, id) {
                    None => {
                        added.push(id);
                    },
                    Some(q) => {
                        if q == p {
                            unchanged.push(id);
                        } else {
                            moved.push((id, q, p));
                        }
                    },
                }
                proof {
                    assert(added_spec(prev@, cur@, 0) =~= added@ + added_spec(
                        prev@,
                        cur@,
                        p as int + 1,
                    ));
                    assert(unchanged_spec(prev@, cur@, 0) =~= unchanged@ + unchanged_spec(
                        prev@,
                        cur@,
                        p as int + 1,
                    ));
                    assert(moved_spec(prev@, cur@, 0) =~= moved@ + moved_spec(
                        prev@,
                        cur@,
                        p as int + 1,
                    ));
                }
                p = p + 1;
            }
            let mut removed: Vec<WindowId> = Vec::new();
            let mut q: usize = 0;
            while q < prev.len()
                invariant
                    0 <= q <= prev.len(),
                    removed_spec(prev@, cur@, 0) == removed@ + removed_spec(
                        prev@,
                        cur@,
                        q as int,
                    ),
                decreases prev.len() - q,
            {
                let id = prev[q];
                let is_last = match last_index(prev, id) {
                    Some(lp) => lp == q,
                    None => false,
                };
                proof {
                    lemma_last_index_contains(prev@, id);
                }
                if is_last && !ids_contains(cur, id) {
                    removed.push(id);
                }
                proof {
                    assert(removed_spec(prev@, cur@, 0) =~= removed@ + removed_spec(
                        prev@,
                        cur@,
                        q as int + 1,
                    ));
                }
                q = q + 1;
            }
            proof {
                assert(added@ + added_spec(prev@, cur@, cur@.len() as int) =~= added@);
                assert(unchanged@ + unchanged_spec(prev@, cur@, cur@.len() as int) =~= unchanged@);
                assert(moved@ + moved_spec(prev@, cur@, cur@.len() as int) =~= moved@);
                assert(removed@ + removed_spec(prev@, cur@, prev@.len() as int) =~= removed@);
            }
            StackDiff { added, removed, moved, unchanged }
        };
        let ghost oldcache = self.cache_view();
        if self.diff_cache.len() > 100 {
            self.diff_cache.clear();
            proof {
                assert(self.cache_view() =~= Seq::<(Seq<WindowId>, DiffView)>::empty());
            }
        }
        let ghost kept = self.cache_view();
        let key = copy_ids(current_stack);
        let stored = copy_diff(&d);
        self.diff_cache.push((key, stored));
        self.previous_stack = copy_ids(current_stack);
        proof {
            assert(self.cache_view() =~= kept.push((current_stack@, d@)));
        }
        d
    }

    /// Forget the previous stack and the memo.
    pub fn clear(&mut self)
        ensures
            final(self).prev_view().len() == 0,
            final(self).cache_view().len() == 0,
    {
        self.previous_stack.clear();
        self.diff_cache.clear();
        proof {
            assert(self.cache_view() =~= Seq::<(Seq<WindowId>, DiffView)>::empty());
        }
    }

    /// (size of the remembered stack, number of memoized reports).
    pub fn cache_stats(&self) -> (r: (usize, usize))
        ensures
            r.0 == self.prev_view().len(),
            r.1 == self.cache_view().len(),
    {
        (self.previous_stack.len(), self.diff_cache.len())
    }
}

impl Default for CachedStackDiff {
    fn default() -> Self {
        Self::new()
    }
}

} // verus!
