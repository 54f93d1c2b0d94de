//! Resource accounting shared by mutex and semaphore deadlock detection.
//!
//! The detector records, for every resource, how many units are available;
//! for every thread, how many units of each resource it holds; and the one
//! resource, if any, that the thread is waiting for. A state is safe when the
//! threads can all finish in some order: each thread in turn either waits for
//! nothing or waits for a resource of which a unit is free once the threads
//! before it have finished and returned what they hold.
use vstd::prelude::*;

verus! {

/// Units of resource `j` held by the threads of `order`, in total.
pub open spec fn alloc_sum(hold: Seq<Seq<usize>>, order: Seq<int>, j: int) -> int
    decreases order.len(),
{
    if order.len() == 0 {
        0
    } else {
        alloc_sum(hold, order.drop_last(), j) + hold[order.last()][j]
    }
}

/// Units of resource `j` held by all the threads, in total.
pub open spec fn col_sum(rows: Seq<Seq<usize>>, j: int) -> int
    decreases rows.len(),
{
    if rows.len() == 0 {
        0
    } else {
        col_sum(rows.drop_last(), j) + rows.last()[j]
    }
}

/// Free units of resource `j` once the threads of `order` have finished.
pub open spec fn work_after(
    avail: Seq<usize>,
    hold: Seq<Seq<usize>>,
    order: Seq<int>,
    j: int,
) -> int {
    avail[j] + alloc_sum(hold, order, j)
}

/// Whether thread `t` can proceed once the threads of `order` have finished.
pub open spec fn runnable(
    avail: Seq<usize>,
    hold: Seq<Seq<usize>>,
    need: Seq<Option<usize>>,
    order: Seq<int>,
    t: int,
) -> bool {
    match need[t] {
        None => true,
        Some(id) => work_after(avail, hold, order, id as int) > 0,
    }
}

/// `order` lists every thread exactly once, each able to proceed once the
/// threads before it have finished.
pub open spec fn is_completion_order(
    avail: Seq<usize>,
    hold: Seq<Seq<usize>>,
    need: Seq<Option<usize>>,
    order: Seq<int>,
) -> bool {
    &&& order.no_duplicates()
    &&& forall|k: int| 0 <= k < order.len() ==> 0 <= #[trigger] order[k] < need.len()
    &&& forall|t: int| 0 <= t < need.len() ==> #[trigger] order.contains(t)
    &&& forall|k: int|
        0 <= k < order.len() ==> runnable(avail, hold, need, order.take(k), #[trigger] order[k])
}

/// Whether all threads can finish.
pub open spec fn all_can_finish(
    avail: Seq<usize>,
    hold: Seq<Seq<usize>>,
    need: Seq<Option<usize>>,
) -> bool {
    exists|order: Seq<int>| is_completion_order(avail, hold, need, order)
}

/// The threads `0..n` in increasing order.
pub open spec fn thread_range(n: int) -> Seq<int> {
    Seq::new(n as nat, |i: int| i)
}

proof fn lemma_alloc_sum_nonneg(hold: Seq<Seq<usize>>, order: Seq<int>, j: int)
    ensures
        alloc_sum(hold, order, j) >= 0,
    decreases order.len(),
{
    if order.len() > 0 {
        lemma_alloc_sum_nonneg(hold, order.drop_last(), j);
    }
}

proof fn lemma_alloc_sum_remove(hold: Seq<Seq<usize>>, b: Seq<int>, idx: int, j: int)
    requires
        0 <= idx < b.len(),
    ensures
        alloc_sum(hold, b, j) == alloc_sum(hold, b.remove(idx), j) + hold[b[idx]][j],
    decreases b.len(),
{
    if idx == b.len() - 1 {
        assert(b.remove(idx) =~= b.drop_last());
    } else {
        lemma_alloc_sum_remove(hold, b.drop_last(), idx, j);
        assert(b.drop_last().remove(idx) =~= b.remove(idx).drop_last());
    }
}

/// The holdings of a set of threads are at most those of a superset.
proof fn lemma_alloc_sum_subset(hold: Seq<Seq<usize>>, a: Seq<int>, b: Seq<int>, j: int)
    requires
        a.no_duplicates(),
        b.no_duplicates(),
        forall|k: int| 0 <= k < a.len() ==> b.contains(#[trigger] a[k]),
    ensures
        alloc_sum(hold, a, j) <= alloc_sum(hold, b, j),
    decreases a.len(),
{
    if a.len() == 0 {
        lemma_alloc_sum_nonneg(hold, b, j);
    } else {
        let x = a.last();
        assert(b.contains(a[a.len() - 1]));
        let idx = b.index_of(x);
        let b2 = b.remove(idx);
        lemma_alloc_sum_remove(hold, b, idx, j);
        assert forall|k: int| 0 <= k < a.drop_last().len() implies b2.contains(
            #[trigger] a.drop_last()[k],
        ) by {
            let y = a.drop_last()[k];
            assert(y == a[k]);
            assert(b.contains(a[k]));
            let i = b.index_of(y);
            assert(y != x);
            if i < idx {
                assert(b2[i] == y);
            } else {
                assert(b2[i - 1] == y);
            }
        }
        assert(b2.no_duplicates()) by {
            assert forall|p: int, q: int|
                0 <= p < b2.len() && 0 <= q < b2.len() && p != q implies b2[p] != b2[q] by {
                let pp = if p < idx { p } else { p + 1 };
                let qq = if q < idx { q } else { q + 1 };
                assert(b2[p] == b[pp] && b2[q] == b[qq]);
            }
        }
        lemma_alloc_sum_subset(hold, a.drop_last(), b2, j);
    }
}

/// Holdings depend only on the rows of the threads counted.
proof fn lemma_alloc_sum_rows(a1: Seq<Seq<usize>>, a2: Seq<Seq<usize>>, order: Seq<int>, j: int)
    requires
        forall|k: int| 0 <= k < order.len() ==> a1[order[k]][j] == a2[order[k]][j],
    ensures
        alloc_sum(a1, order, j) == alloc_sum(a2, order, j),
    decreases order.len(),
{
    if order.len() > 0 {
        lemma_alloc_sum_rows(a1, a2, order.drop_last(), j);
        assert(a1[order[order.len() - 1]][j] == a2[order[order.len() - 1]][j]);
    }
}

/// The holdings of all threads, counted thread by thread, are the column sum.
proof fn lemma_alloc_sum_all(hold: Seq<Seq<usize>>, j: int)
    ensures
        alloc_sum(hold, thread_range(hold.len() as int), j) == col_sum(hold, j),
    decreases hold.len(),
{
    if hold.len() > 0 {
        let n = hold.len() as int;
        lemma_alloc_sum_all(hold.drop_last(), j);
        assert(thread_range(n).drop_last() =~= thread_range(n - 1));
        lemma_alloc_sum_rows(hold, hold.drop_last(), thread_range(n - 1), j);
    }
}

/// Replacing one thread's row changes the column sum by the difference.
pub proof fn lemma_col_sum_update(rows: Seq<Seq<usize>>, t: int, r: Seq<usize>, j: int)
    requires
        0 <= t < rows.len(),
    ensures
        col_sum(rows.update(t, r), j) == col_sum(rows, j) - rows[t][j] + r[j],
    decreases rows.len(),
{
    if t == rows.len() - 1 {
        assert(rows.update(t, r).drop_last() =~= rows.drop_last());
    } else {
        lemma_col_sum_update(rows.drop_last(), t, r, j);
        assert(rows.update(t, r).drop_last() =~= rows.drop_last().update(t, r));
    }
}

/// Column sums agree when the rows agree in that column.
pub proof fn lemma_col_sum_congruent(r1: Seq<Seq<usize>>, r2: Seq<Seq<usize>>, j: int)
    requires
        r1.len() == r2.len(),
        forall|t: int| 0 <= t < r1.len() ==> r1[t][j] == r2[t][j],
    ensures
        col_sum(r1, j) == col_sum(r2, j),
    decreases r1.len(),
{
    if r1.len() > 0 {
        lemma_col_sum_congruent(r1.drop_last(), r2.drop_last(), j);
        assert(r1[r1.len() - 1][j] == r2[r2.len() - 1][j]);
    }
}

/// A column of zeros sums to zero.
pub proof fn lemma_col_sum_zero(rows: Seq<Seq<usize>>, j: int)
    requires
        forall|t: int| 0 <= t < rows.len() ==> rows[t][j] == 0,
    ensures
        col_sum(rows, j) == 0,
    decreases rows.len(),
{
    if rows.len() > 0 {
        lemma_col_sum_zero(rows.drop_last(), j);
        assert(rows[rows.len() - 1][j] == 0);
    }
}

/// Column sums are never negative.
pub proof fn lemma_col_sum_nonneg(rows: Seq<Seq<usize>>, j: int)
    ensures
        col_sum(rows, j) >= 0,
    decreases rows.len(),
{
    if rows.len() > 0 {
        lemma_col_sum_nonneg(rows.drop_last(), j);
    }
}

/// The request table once thread `tid` has an entry.
pub open spec fn pad_needs(need: Seq<Option<usize>>, tid: int) -> Seq<Option<usize>> {
    if tid < need.len() {
        need
    } else {
        need + Seq::new((tid + 1 - need.len()) as nat, |i: int| None::<usize>)
    }
}

/// The holdings table grown to `len` threads with rows of `m` zeros.
pub open spec fn pad_hold(hold: Seq<Seq<usize>>, m: int, len: int) -> Seq<Seq<usize>> {
    if len <= hold.len() {
        hold
    } else {
        hold + Seq::new((len - hold.len()) as nat, |i: int| Seq::new(m as nat, |k: int| 0usize))
    }
}

/// Padding the holdings table with zero rows keeps every column sum.
pub proof fn lemma_pad_col_sums(h0: Seq<Seq<usize>>, h: Seq<Seq<usize>>, m: int)
    requires
        h0.len() <= h.len(),
        h.subrange(0, h0.len() as int) == h0,
        forall|i: int| h0.len() <= i < h.len() ==> #[trigger] h[i] == Seq::new(m as nat, |k: int| 0usize),
    ensures
        forall|j: int| 0 <= j < m ==> #[trigger] col_sum(h, j) == col_sum(h0, j),
{
    assert forall|j: int| 0 <= j < m implies #[trigger] col_sum(h, j) == col_sum(h0, j) by {
        assert forall|i: int| h0.len() <= i < h.len() implies (#[trigger] h[i])[j] == 0 by {
            assert(h[i] == Seq::new(m as nat, |k: int| 0usize));
        }
        lemma_col_sum_prefix_zero(h, h0.len() as int, j);
    }
}

/// A duplicate-free list of threads below `n` has at most `n` entries.
proof fn lemma_order_len(order: Seq<int>, n: int)
    requires
        0 <= n,
        order.no_duplicates(),
        forall|k: int| 0 <= k < order.len() ==> 0 <= #[trigger] order[k] < n,
    ensures
        order.len() <= n,
{
    order.unique_seq_to_set();
    vstd::set_lib::lemma_int_range(0, n);
    assert(order.to_set().subset_of(vstd::set_lib::set_int_range(0, n)));
    vstd::set_lib::lemma_len_subset(order.to_set(), vstd::set_lib::set_int_range(0, n));
}

/// The first entry of `s` at or after `k` that `order` does not list.
proof fn lemma_first_missing(s: Seq<int>, order: Seq<int>, k: int, t0: int) -> (i: int)
    requires
        0 <= k <= s.len(),
        forall|i0: int| 0 <= i0 < k ==> order.contains(#[trigger] s[i0]),
        s.contains(t0),
        !order.contains(t0),
    ensures
        0 <= i < s.len(),
        !order.contains(s[i]),
        forall|i0: int| 0 <= i0 < i ==> order.contains(#[trigger] s[i0]),
    decreases s.len() - k,
{
    if k == s.len() {
        let w = s.index_of(t0);
        assert(order.contains(s[w]));
        assert(false);
        0
    } else if !order.contains(s[k]) {
        k
    } else {
        lemma_first_missing(s, order, k + 1, t0)
    }
}

/// When no unfinished thread can proceed once the threads of `order` have
/// finished, and some thread is unfinished, the threads cannot all finish.
proof fn lemma_stuck_is_unsafe(
    avail: Seq<usize>,
    hold: Seq<Seq<usize>>,
    need: Seq<Option<usize>>,
    order: Seq<int>,
    t0: int,
)
    requires
        order.no_duplicates(),
        forall|t: int|
            0 <= t < need.len() ==> order.contains(t) || !runnable(avail, hold, need, order, t),
        0 <= t0 < need.len(),
        !order.contains(t0),
    ensures
        !all_can_finish(avail, hold, need),
{
    if all_can_finish(avail, hold, need) {
        let s = choose|s: Seq<int>| is_completion_order(avail, hold, need, s);
        assert(s.contains(t0));
        let i = lemma_first_missing(s, order, 0, t0);
        let p = s.take(i);
        assert(p.no_duplicates()) by {
            assert forall|a: int, b: int| 0 <= a < p.len() && 0 <= b < p.len() && a != b implies p[a]
                != p[b] by {
                assert(p[a] == s[a] && p[b] == s[b]);
            }
        }
        assert forall|k: int| 0 <= k < p.len() implies order.contains(#[trigger] p[k]) by {
            assert(p[k] == s[k]);
        }
        assert(runnable(avail, hold, need, s.take(i), s[i]));
        assert(0 <= s[i] < need.len());
        match need[s[i]] {
            None => {},
            Some(id) => {
                lemma_alloc_sum_subset(hold, p, order, id as int);
            },
        }
        assert(runnable(avail, hold, need, order, s[i]));
    }
}

/// Resource allocation and pending requests.
pub struct DeadlockDetector {
    /// Whether to reject unsafe requests.
    pub enabled: bool,
    available: Vec<usize>,
    allocation: Vec<Vec<usize>>,
    need: Vec<Option<usize>>,
}

impl DeadlockDetector {
    /// Whether unsafe requests are rejected.
    pub closed spec fn detection(&self) -> bool {
        self.enabled
    }

    /// Free units of each resource.
    pub closed spec fn avail(&self) -> Seq<usize> {
        self.available@
    }

    /// Units of each resource held by each thread.
    pub closed spec fn hold(&self) -> Seq<Seq<usize>> {
        self.allocation@.map_values(|r: Vec<usize>| r@)
    }

    /// The resource each thread waits for, if any.
    pub closed spec fn needs(&self) -> Seq<Option<usize>> {
        self.need@
    }

    /// The detector's invariant: one row per thread and one column per
    /// resource, requests name known resources, and no resource has more units
    /// in all than a `usize` counts.
    pub open spec fn wf(&self) -> bool {
        &&& self.hold().len() == self.needs().len()
        &&& forall|t: int|
            0 <= t < self.hold().len() ==> (#[trigger] self.hold()[t]).len() == self.avail().len()
        &&& forall|t: int|
            0 <= t < self.needs().len() && (#[trigger] self.needs()[t]) is Some ==> self.needs()[t]->0
                < self.avail().len()
        &&& forall|j: int|
            0 <= j < self.avail().len() ==> #[trigger] self.avail()[j] + col_sum(self.hold(), j)
                <= usize::MAX
    }

    /// Check whether all threads can finish.
    pub fn is_safe(&self) -> (r: bool)
        requires
            self.wf(),
        ensures
            r == all_can_finish(self.avail(), self.hold(), self.needs()),
    {
        let ghost avail = self.avail();
        let ghost hold = self.hold();
        let ghost need = self.needs();
        let n = self.need.len();
        let m = self.available.len();
        let mut work: Vec<usize> = Vec::new();
        let mut j: usize = 0;
        while j < m
            invariant
                j <= m,
                m == avail.len(),
                avail == self.avail(),
                work@ == avail.take(j as int),
            decreases m - j,
        {
            work.push(self.available[j]);
            assert(work@ =~= avail.take(j + 1));
            j = j + 1;
        }
        let mut finish: Vec<bool> = Vec::new();
        let mut t: usize = 0;
        while t < n
            invariant
                t <= n,
                finish@.len() == t,
                forall|i: int| 0 <= i < t ==> !finish@[i],
            decreases n - t,
        {
            finish.push(false);
            t = t + 1;
        }
        let ghost mut order: Seq<int> = Seq::empty();
        proof {
            assert forall|jj: int| 0 <= jj < m implies work@[jj] == work_after(
                avail,
                hold,
                order,
                jj,
            ) by {
                assert(work@[jj] == avail.take(m as int)[jj]);
            }
        }
        loop
            invariant
                self.wf(),
                avail == self.avail(),
                hold == self.hold(),
                need == self.needs(),
                n == need.len(),
                m == avail.len(),
                work@.len() == m,
                finish@.len() == n,
                order.no_duplicates(),
                forall|k: int| 0 <= k < order.len() ==> 0 <= #[trigger] order[k] < n,
                forall|i: int| 0 <= i < n ==> (finish@[i] <==> order.contains(i)),
                forall|jj: int| 0 <= jj < m ==> #[trigger] work@[jj] == work_after(avail, hold, order, jj),
                forall|k: int|
                    0 <= k < order.len() ==> runnable(avail, hold, need, order.take(k), #[trigger] order[k]),
            decreases n - order.len(),
        {
            proof {
                lemma_order_len(order, n as int);
            }
            let mut progress = false;
            let ghost start = order.len();
            let mut tid: usize = 0;
            while tid < n
                invariant
                    self.wf(),
                    avail == self.avail(),
                    hold == self.hold(),
                    need == self.needs(),
                    n == need.len(),
                    m == avail.len(),
                    tid <= n,
                    work@.len() == m,
                    finish@.len() == n,
                    order.no_duplicates(),
                    forall|k: int| 0 <= k < order.len() ==> 0 <= #[trigger] order[k] < n,
                    forall|i: int| 0 <= i < n ==> (finish@[i] <==> order.contains(i)),
                    forall|jj: int|
                        0 <= jj < m ==> #[trigger] work@[jj] == work_after(avail, hold, order, jj),
                    forall|k: int|
                        0 <= k < order.len() ==> runnable(avail, hold, need, order.take(k), #[trigger] order[k]),
                    order.len() >= start,
                    progress <==> order.len() > start,
                    !progress ==> forall|i: int|
                        0 <= i < tid ==> finish@[i] || !runnable(avail, hold, need, order, i),
                decreases n - tid,
            {
                let can_run = match self.need[tid] {
                    None => true,
                    Some(id) => work[id] > 0,
                };
                if !finish[tid] && can_run {
                    let ghost next = order.push(tid as int);
                    proof {
                        assert(next.drop_last() =~= order);
                        assert(!order.contains(tid as int));
                        assert forall|a: int, b: int|
                            0 <= a < next.len() && 0 <= b < next.len() && a != b implies next[a]
                            != next[b] by {
                            if a < order.len() && b < order.len() {
                                assert(next[a] == order[a] && next[b] == order[b]);
                            } else if a < order.len() {
                                assert(next[a] == order[a]);
                            } else {
                                assert(next[b] == order[b]);
                            }
                        }
                        assert(hold[tid as int] == self.allocation@[tid as int]@);
                    }
                    let mut j: usize = 0;
                    while j < m
                        invariant
                            self.wf(),
                            avail == self.avail(),
                            hold == self.hold(),
                            need == self.needs(),
                            n == need.len(),
                            m == avail.len(),
                            tid < n,
                            j <= m,
                            work@.len() == m,
                            next == order.push(tid as int),
                            next.drop_last() == order,
                            next.no_duplicates(),
                            forall|k: int| 0 <= k < next.len() ==> 0 <= #[trigger] next[k] < n,
                            forall|jj: int|
                                0 <= jj < j ==> #[trigger] work@[jj] == work_after(avail, hold, next, jj),
                            forall|jj: int|
                                j <= jj < m ==> #[trigger] work@[jj] == work_after(avail, hold, order, jj),
                        decreases m - j,
                    {
                        proof {
                            assert forall|k: int| 0 <= k < next.len() implies thread_range(
                                n as int,
                            ).contains(#[trigger] next[k]) by {
                                assert(thread_range(n as int)[next[k]] == next[k]);
                            }
                            lemma_alloc_sum_subset(hold, next, thread_range(n as int), j as int);
                            lemma_alloc_sum_all(hold, j as int);
                            assert(avail[j as int] + col_sum(hold, j as int) <= usize::MAX);
                            assert(self.hold()[tid as int].len() == m);
                            assert(hold[tid as int] == self.allocation@[tid as int]@);
                        }
                        let held = self.allocation[tid][j];
                        work.set(j, work[j] + held);
                        j = j + 1;
                    }
                    finish.set(tid, true);
                    proof {
                        assert forall|k: int| 0 <= k < next.len() implies runnable(
                            avail,
                            hold,
                            need,
                            next.take(k),
                            #[trigger] next[k],
                        ) by {
                            if k < order.len() {
                                assert(next.take(k) =~= order.take(k));
                            } else {
                                assert(next.take(k) =~= order);
                            }
                        }
                        assert forall|i: int| 0 <= i < n implies (finish@[i] <==> next.contains(i)) by {
                            if order.contains(i) {
                                let w = order.index_of(i);
                                assert(next[w] == i);
                            }
                            if i == tid {
                                assert(next[order.len() as int] == i);
                            }
                            if next.contains(i) && i != tid {
                                let w = next.index_of(i);
                                assert(w < order.len());
                                assert(order[w] == i);
                            }
                        }
                        order = next;
                    }
                    progress = true;
                }
                tid = tid + 1;
            }
            proof {
                lemma_order_len(order, n as int);
            }
            if !progress {
                let mut all = true;
                let mut i: usize = 0;
                while i < n
                    invariant
                        i <= n,
                        finish@.len() == n,
                        all <==> forall|i0: int| 0 <= i0 < i ==> finish@[i0],
                    decreases n - i,
                {
                    if !finish[i] {
                        all = false;
                    }
                    i = i + 1;
                }
                proof {
                    if all {
                        assert(is_completion_order(avail, hold, need, order));
                    } else {
                        let t0 = choose|i0: int| 0 <= i0 < n && !finish@[i0];
                        lemma_stuck_is_unsafe(avail, hold, need, order, t0);
                    }
                }
                return all;
            }
        }
    }

    /// Give thread `tid` an entry: no request and no holdings, if it has none.
    fn ensure_thread(&mut self, tid: usize)
        requires
            old(self).wf(),
            tid < usize::MAX,
        ensures
            final(self).wf(),
            final(self).detection() == old(self).detection(),
            final(self).avail() == old(self).avail(),
            final(self).needs() == pad_needs(old(self).needs(), tid as int),
            final(self).hold() == pad_hold(
                old(self).hold(),
                old(self).avail().len() as int,
                final(self).needs().len() as int,
            ),
    {
        let ghost old_need = self.needs();
        let ghost old_hold = self.hold();
        let m = self.available.len();
        while self.need.len() < tid + 1
            invariant
                tid < usize::MAX,
                self.need@.len() <= tid + 1 || self.need@ == old_need,
                old_need.len() <= self.need@.len(),
                self.need@.subrange(0, old_need.len() as int) == old_need,
                forall|i: int| old_need.len() <= i < self.need@.len() ==> self.need@[i] is None,
                self.hold() == old_hold,
                self.available@.len() == m,
                self.avail() == old(self).avail(),
                self.enabled == old(self).enabled,
            decreases tid + 1 - self.need@.len(),
        {
            self.need.push(None);
        }
        assert(self.need@ =~= pad_needs(old_need, tid as int));
        let n = self.need.len();
        while self.allocation.len() < n
            invariant
                n == self.need@.len(),
                old_hold.len() == old_need.len(),
                old_hold.len() <= self.allocation@.len() <= n,
                self.hold().subrange(0, old_hold.len() as int) == old_hold,
                forall|i: int|
                    old_hold.len() <= i < self.hold().len() ==> #[trigger] self.hold()[i] == Seq::new(
                        m as nat,
                        |k: int| 0usize,
                    ),
                self.available@.len() == m,
                self.avail() == old(self).avail(),
                self.enabled == old(self).enabled,
                self.need@ == pad_needs(old_need, tid as int),
            decreases n - self.allocation@.len(),
        {
            let row: Vec<usize> = vec![0usize; m];
            let ghost before = self.hold();
            self.allocation.push(row);
            assert(row@ =~= Seq::new(m as nat, |k: int| 0usize));
            assert(self.hold() =~= before.push(row@));
        }
        assert(self.hold() =~= pad_hold(old_hold, m as int, n as int));
        proof {
            assert forall|j: int| 0 <= j < m implies #[trigger] self.avail()[j] + col_sum(
                self.hold(),
                j,
            ) <= usize::MAX by {
                let h = self.hold();
                assert(h.subrange(0, old_hold.len() as int) =~= old_hold);
                lemma_col_sum_prefix_zero(h, old_hold.len() as int, j);
            }
        }
    }

    /// Forget a thread without releasing its resources.
    pub fn remove_thread(&mut self, tid: usize)
        requires
            old(self).wf(),
        ensures
            final(self).wf(),
            final(self).detection() == old(self).detection(),
            final(self).avail() == old(self).avail(),
            tid < old(self).needs().len() ==> {
                &&& final(self).needs() == old(self).needs().update(tid as int, None)
                &&& final(self).hold() == old(self).hold().update(
                    tid as int,
                    Seq::new(old(self).avail().len(), |k: int| 0usize),
                )
            },
            tid >= old(self).needs().len() ==> final(self).needs() == old(self).needs()
                && final(self).hold() == old(self).hold(),
    {
        if tid < self.need.len() {
            let ghost old_hold = self.hold();
            let m = self.available.len();
            self.need.set(tid, None);
            let row: Vec<usize> = vec![0usize; m];
            self.allocation.set(tid, row);
            assert(row@ =~= Seq::new(m as nat, |k: int| 0usize));
            assert(self.hold() =~= old_hold.update(tid as int, row@));
            proof {
                assert forall|j: int| 0 <= j < m implies #[trigger] self.avail()[j] + col_sum(
                    self.hold(),
                    j,
                ) <= usize::MAX by {
                    lemma_col_sum_update(old_hold, tid as int, row@, j);
                    assert(old_hold[tid as int].len() == m);
                }
            }
        }
    }
}

/// Zero rows appended after the first `k` rows add nothing to a column.
pub proof fn lemma_col_sum_prefix_zero(h: Seq<Seq<usize>>, k: int, j: int)
    requires
        0 <= k <= h.len(),
        forall|i: int| k <= i < h.len() ==> (#[trigger] h[i])[j] == 0,
    ensures
        col_sum(h, j) == col_sum(h.subrange(0, k), j),
    decreases h.len() - k,
{
    if k < h.len() {
        lemma_col_sum_prefix_zero(h, k + 1, j);
        assert(h.subrange(0, k + 1).drop_last() =~= h.subrange(0, k));
        assert(h.subrange(0, k + 1).last() == h[k]);
        assert(h[k][j] == 0);
    } else {
        assert(h.subrange(0, k) =~= h);
    }
}


impl Default for DeadlockDetector {
    /// A detector with detection off, no resources and no threads.
    fn default() -> (r: Self)
        ensures
            r.wf(),
            !r.detection(),
            r.avail() == Seq::<usize>::empty(),
            r.hold() == Seq::<Seq<usize>>::empty(),
            r.needs() == Seq::<Option<usize>>::empty(),
    {
        let r = Self {
            enabled: false,
            available: Vec::new(),
            allocation: Vec::new(),
            need: Vec::new(),
        };
        assert(r.hold() =~= Seq::<Seq<usize>>::empty());
        r
    }
}

impl DeadlockDetector {
    /// Turn the rejection of unsafe requests on or off.
    pub fn set_enabled(&mut self, enabled: bool)
        requires
            old(self).wf(),
        ensures
            final(self).wf(),
            final(self).detection() == enabled,
            final(self).avail() == old(self).avail(),
            final(self).hold() == old(self).hold(),
            final(self).needs() == old(self).needs(),
    {
        self.enabled = enabled;
    }
}

/// A resource tracked by a detector, identified by its column.
pub struct Resource {
    id: usize,
}

impl Resource {
    /// The resource's column in its detector.
    pub closed spec fn id(&self) -> usize {
        self.id
    }

    /// Register a resource with its initial count.
    pub fn new(detector: &mut DeadlockDetector, count: usize) -> (r: Self)
        requires
            old(detector).wf(),
        ensures
            final(detector).wf(),
            r.id() == old(detector).avail().len(),
            final(detector).detection() == old(detector).detection(),
            final(detector).avail() == old(detector).avail().push(count),
            final(detector).hold() == old(detector).hold().map_values(
                |row: Seq<usize>| row.push(0usize),
            ),
            final(detector).needs() == old(detector).needs(),
    {
        let ghost old_hold = detector.hold();
        let ghost old_avail = detector.avail();
        let id = detector.available.len();
        detector.available.push(count);
        let n = detector.allocation.len();
        let mut t: usize = 0;
        while t < n
            invariant
                t <= n,
                n == old_hold.len(),
                detector.allocation@.len() == n,
                detector.avail() == old_avail.push(count),
                detector.needs() == old(detector).needs(),
                detector.enabled == old(detector).enabled,
                forall|i: int| 0 <= i < t ==> #[trigger] detector.hold()[i] == old_hold[i].push(0usize),
                forall|i: int| t <= i < n ==> #[trigger] detector.hold()[i] == old_hold[i],
            decreases n - t,
        {
            let ghost before = detector.hold();
            assert(detector.hold()[t as int] == old_hold[t as int]);
            let mut row = detector.allocation[t].clone();
            assert(row@ =~= old_hold[t as int]);
            row.push(0);
            detector.allocation.set(t, row);
            assert(detector.hold() =~= before.update(t as int, old_hold[t as int].push(0usize)));
            t = t + 1;
        }
        assert(detector.hold() =~= old_hold.map_values(|row: Seq<usize>| row.push(0usize)));
        proof {
            let h = detector.hold();
            assert forall|j: int| 0 <= j < id + 1 implies #[trigger] detector.avail()[j] + col_sum(
                h,
                j,
            ) <= usize::MAX by {
                if j < id {
                    assert forall|i: int| 0 <= i < h.len() implies h[i][j] == old_hold[i][j] by {
                        assert(old_hold[i].len() == id);
                    }
                    lemma_col_sum_congruent(h, old_hold, j);
                    assert(old_avail[j] + col_sum(old_hold, j) <= usize::MAX);
                } else {
                    assert forall|i: int| 0 <= i < h.len() implies h[i][j] == 0 by {
                        assert(old_hold[i].len() == id);
                    }
                    lemma_col_sum_zero(h, j);
                }
            }
            assert forall|i: int| 0 <= i < h.len() implies (#[trigger] h[i]).len() == id + 1 by {
                assert(old_hold[i].len() == id);
            }
        }
        Self { id }
    }

    /// Record that thread `tid` waits for this resource, and return `tid`.
    pub fn wait(&self, detector: &mut DeadlockDetector, tid: usize) -> (r: usize)
        requires
            old(detector).wf(),
            self.id() < old(detector).avail().len(),
            tid < usize::MAX,
        ensures
            r == tid,
            final(detector).wf(),
            final(detector).detection() == old(detector).detection(),
            final(detector).avail() == old(detector).avail(),
            final(detector).needs() == pad_needs(old(detector).needs(), tid as int).update(
                tid as int,
                Some(self.id()),
            ),
            final(detector).hold() == pad_hold(
                old(detector).hold(),
                old(detector).avail().len() as int,
                final(detector).needs().len() as int,
            ),
            forall|j: int| 0 <= j < old(detector).avail().len() ==> #[trigger] col_sum(final(detector).hold(), j) == col_sum(old(detector).hold(), j),
    {
        let ghost h0 = detector.hold();
        detector.ensure_thread(tid);
        detector.need.set(tid, Some(self.id));
        proof {
            assert(detector.hold().subrange(0, h0.len() as int) =~= h0);
            lemma_pad_col_sums(h0, detector.hold(), detector.avail().len() as int);
        }
        tid
    }

    /// Record a request of thread `tid` for this resource. With detection on,
    /// a request that would leave the threads unable to all finish is
    /// withdrawn and rejected (`false`); otherwise it stays recorded (`true`).
    pub fn request(&self, detector: &mut DeadlockDetector, tid: usize) -> (r: bool)
        requires
            old(detector).wf(),
            self.id() < old(detector).avail().len(),
            tid < usize::MAX,
        ensures
            final(detector).wf(),
            final(detector).detection() == old(detector).detection(),
            final(detector).avail() == old(detector).avail(),
            ({
                let needs = pad_needs(old(detector).needs(), tid as int);
                let hold = pad_hold(
                    old(detector).hold(),
                    old(detector).avail().len() as int,
                    needs.len() as int,
                );
                let waiting = needs.update(tid as int, Some(self.id()));
                &&& final(detector).hold() == hold
                &&& r == !(old(detector).detection() && !all_can_finish(
                    old(detector).avail(),
                    hold,
                    waiting,
                ))
                &&& final(detector).needs() == if r {
                    waiting
                } else {
                    needs.update(tid as int, None)
                }
            }),
            forall|j: int| 0 <= j < old(detector).avail().len() ==> #[trigger] col_sum(final(detector).hold(), j) == col_sum(old(detector).hold(), j),
    {
        let ghost before = detector.needs();
        let tid = self.wait(detector, tid);
        if detector.enabled && !detector.is_safe() {
            detector.need.set(tid, None);
            proof {
                assert(detector.needs() =~= pad_needs(before, tid as int).update(tid as int, None));
            }
            return false;
        }
        true
    }

    /// Assign one unit of this resource to thread `tid`, which no longer waits.
    pub fn acquire(&self, detector: &mut DeadlockDetector, tid: usize)
        requires
            old(detector).wf(),
            self.id() < old(detector).avail().len(),
            old(detector).avail()[self.id() as int] > 0,
            tid < usize::MAX,
        ensures
            final(detector).wf(),
            final(detector).detection() == old(detector).detection(),
            ({
                let needs = pad_needs(old(detector).needs(), tid as int);
                let hold = pad_hold(
                    old(detector).hold(),
                    old(detector).avail().len() as int,
                    needs.len() as int,
                );
                &&& final(detector).avail() == old(detector).avail().update(
                    self.id() as int,
                    (old(detector).avail()[self.id() as int] - 1) as usize,
                )
                &&& final(detector).hold() == hold.update(
                    tid as int,
                    hold[tid as int].update(
                        self.id() as int,
                        (hold[tid as int][self.id() as int] + 1) as usize,
                    ),
                )
                &&& final(detector).needs() == needs.update(tid as int, None)
            }),
            forall|j: int| 0 <= j < old(detector).avail().len() ==> #[trigger] col_sum(final(detector).hold(), j) == col_sum(old(detector).hold(), j)
                + if j == self.id() { 1int } else { 0int },
            tid < final(detector).hold().len(),
            final(detector).hold()[tid as int][self.id() as int] > 0,
    {
        let ghost h0 = detector.hold();
        detector.ensure_thread(tid);
        proof {
            assert(detector.hold().subrange(0, h0.len() as int) =~= h0);
            lemma_pad_col_sums(h0, detector.hold(), detector.avail().len() as int);
        }
        let ghost h = detector.hold();
        let id = self.id;
        proof {
            assert(h[tid as int].len() == detector.avail().len());
            let zeroed = h[tid as int].update(id as int, 0usize);
            lemma_col_sum_update(h, tid as int, zeroed, id as int);
            lemma_col_sum_nonneg(h.update(tid as int, zeroed), id as int);
        }
        let free = detector.available[id];
        detector.available.set(id, free - 1);
        let mut row = detector.allocation[tid].clone();
        assert(row@ =~= h[tid as int]);
        let held = row[id];
        row.set(id, held + 1);
        detector.allocation.set(tid, row);
        assert(detector.hold() =~= h.update(tid as int, row@));
        detector.need.set(tid, None);
        proof {
            let h2 = detector.hold();
            assert forall|j: int|
                0 <= j < detector.avail().len() implies #[trigger] detector.avail()[j] + col_sum(
                h2,
                j,
            ) <= usize::MAX by {
                lemma_col_sum_update(h, tid as int, row@, j);
            }
            assert forall|j: int| 0 <= j < detector.avail().len() implies #[trigger] col_sum(h2, j) == col_sum(h0, j) + if j == id {
                1int
            } else {
                0int
            } by {
                lemma_col_sum_update(h, tid as int, row@, j);
            }
        }
    }

    /// Return one unit of this resource from thread `tid`. A thread that holds
    /// no unit may still return one: the free count grows all the same.
    pub fn release(&self, detector: &mut DeadlockDetector, tid: usize)
        requires
            old(detector).wf(),
            self.id() < old(detector).avail().len(),
            tid < usize::MAX,
            ({
                let held = if tid < old(detector).hold().len() {
                    old(detector).hold()[tid as int][self.id() as int] as int
                } else {
                    0
                };
                held > 0 || old(detector).avail()[self.id() as int] + col_sum(
                    old(detector).hold(),
                    self.id() as int,
                ) < usize::MAX
            }),
        ensures
            final(detector).wf(),
            final(detector).detection() == old(detector).detection(),
            ({
                let needs = pad_needs(old(detector).needs(), tid as int);
                let hold = pad_hold(
                    old(detector).hold(),
                    old(detector).avail().len() as int,
                    needs.len() as int,
                );
                let held = hold[tid as int][self.id() as int];
                &&& final(detector).avail() == old(detector).avail().update(
                    self.id() as int,
                    (old(detector).avail()[self.id() as int] + 1) as usize,
                )
                &&& final(detector).hold() == hold.update(
                    tid as int,
                    hold[tid as int].update(
                        self.id() as int,
                        if held > 0 {
                            (held - 1) as usize
                        } else {
                            0usize
                        },
                    ),
                )
                &&& final(detector).needs() == needs
                &&& forall|j: int| 0 <= j < old(detector).avail().len() ==> #[trigger] col_sum(final(detector).hold(), j) == col_sum(
                    old(detector).hold(),
                    j,
                ) - if j == self.id() && held > 0 { 1int } else { 0int }
            }),
    {
        let ghost h0 = detector.hold();
        detector.ensure_thread(tid);
        let ghost h = detector.hold();
        let id = self.id;
        proof {
            assert(h[tid as int].len() == detector.avail().len());
            let hh = h.subrange(0, h0.len() as int);
            assert(hh =~= h0);
            lemma_col_sum_prefix_zero(h, h0.len() as int, id as int);
            if tid >= h0.len() {
                assert(h[tid as int][id as int] == 0);
            }
            let zeroed = h[tid as int].update(id as int, 0usize);
            lemma_col_sum_update(h, tid as int, zeroed, id as int);
            lemma_col_sum_nonneg(h.update(tid as int, zeroed), id as int);
        }
        let mut row = detector.allocation[tid].clone();
        assert(row@ =~= h[tid as int]);
        let held = row[id];
        let free = detector.available[id];
        detector.available.set(id, free + 1);
        row.set(id, held.saturating_sub(1));
        detector.allocation.set(tid, row);
        assert(detector.hold() =~= h.update(tid as int, row@));
        proof {
            let h2 = detector.hold();
            assert forall|j: int|
                0 <= j < detector.avail().len() implies #[trigger] detector.avail()[j] + col_sum(
                h2,
                j,
            ) <= usize::MAX by {
                lemma_col_sum_update(h, tid as int, row@, j);
                lemma_col_sum_prefix_zero(h, h0.len() as int, j);
                assert(h.subrange(0, h0.len() as int) =~= h0);
            }
            lemma_pad_col_sums(h0, h, detector.avail().len() as int);
            assert forall|j: int| 0 <= j < detector.avail().len() implies #[trigger] col_sum(h2, j) == col_sum(h0, j) - if j == id
                && h[tid as int][id as int] > 0 {
                1int
            } else {
                0int
            } by {
                lemma_col_sum_update(h, tid as int, row@, j);
            }
        }
    }
}

} // verus!
