use vstd::prelude::*;
use crate::config::BIG_STRIDE;

verus! {

/// Whether a task whose pass is `cur` runs before one whose pass is `pre`: their
/// difference `pre - cur`, taken modulo 2^64, is positive and at most half of
/// `BIG_STRIDE`, which stays right when the passes wrap around.
pub open spec fn pass_less(cur: u64, pre: u64) -> bool {
    let d = if pre >= cur { pre - cur } else { pre + 0x1_0000_0000_0000_0000 - cur };
    0 < d <= BIG_STRIDE / 2
}

/// Whether no pass of `passes` runs before `passes[i]`.
pub open spec fn is_min_pass(passes: Seq<u64>, i: int) -> bool {
    forall|j: int| 0 <= j < passes.len() ==> !pass_less(#[trigger] passes[j], passes[i])
}

/// Index of the task that the stride policy picks: the first whose pass no other
/// pass runs before, or the first of all when every pass has one before it.
pub open spec fn stride_pick(passes: Seq<u64>) -> int {
    if exists|i: int| 0 <= i < passes.len() && is_min_pass(passes, i) {
        choose|i: int|
            0 <= i < passes.len() && is_min_pass(passes, i) && forall|k: int|
                0 <= k < i ==> !is_min_pass(passes, k)
    } else {
        0
    }
}

/// Whether a task whose pass is `cur` runs before one whose pass is `pre`.
pub fn less_pass(cur: u64, pre: u64) -> (r: bool)
    ensures
        r == pass_less(cur, pre),
{
    let d = pre.wrapping_sub(cur);
    (d as i128) > 0 && (d as i128) <= (BIG_STRIDE / 2) as i128
}

/// Index, in `passes`, of the task the stride policy runs next.
pub fn pick_min_pass(passes: &Vec<u64>) -> (r: usize)
    requires
        passes@.len() > 0,
    ensures
        r as int == stride_pick(passes@),
        r < passes@.len(),
{
    let n = passes.len();
    let mut i: usize = 0;
    while i < n
        invariant
            n == passes@.len(),
            i <= n,
            forall|k: int| 0 <= k < i ==> !is_min_pass(passes@, k),
        decreases n - i,
    {
        let mut j: usize = 0;
        let mut min = true;
        while j < n
            invariant
                n == passes@.len(),
                i < n,
                j <= n,
                min == forall|k: int| 0 <= k < j ==> !pass_less(#[trigger] passes@[k], passes@[i as int]),
            decreases n - j,
        {
            if less_pass(passes[j], passes[i]) {
                min = false;
            }
            j += 1;
        }
        if min {
            proof {
                assert(is_min_pass(passes@, i as int));
                let c = choose|c: int|
                    0 <= c < passes@.len() && is_min_pass(passes@, c) && forall|k: int|
                        0 <= k < c ==> !is_min_pass(passes@, k);
                if c < i {
                } else if c > i {
                }
                assert(c == i);
            }
            return i;
        }
        i += 1;
    }
    0
}

/// When two passes lie within `BIG_STRIDE / 2` of each other, the wrap-safe
/// comparison is the plain one: `cur` runs before `pre` exactly when it is smaller.
pub proof fn lemma_pass_less_is_less(cur: u64, pre: u64)
    requires
        cur <= pre ==> pre - cur <= BIG_STRIDE / 2,
        pre <= cur ==> cur - pre <= BIG_STRIDE / 2,
    ensures
        pass_less(cur, pre) <==> cur < pre,
{
}

/// Stride scheduling keeps passes together: if all passes lie within `m` of each
/// other and every stride is positive and at most `m`, then after the task with the
/// smallest pass advances by its stride, all passes still lie within `m` of each
/// other. With pass = dispatches × stride and stride = `BIG_STRIDE / priority`, the
/// dispatch counts of any two tasks, each divided by its priority, thus differ by at
/// most `m / BIG_STRIDE` plus rounding.
pub proof fn lemma_stride_keeps_passes_together(passes: Seq<int>, strides: Seq<int>, i: int, m: int)
    requires
        passes.len() == strides.len(),
        0 <= i < passes.len(),
        forall|j: int| 0 <= j < passes.len() ==> passes[i] <= #[trigger] passes[j],
        forall|j: int, l: int|
            0 <= j < passes.len() && 0 <= l < passes.len() ==> #[trigger] passes[j] - #[trigger] passes[l] <= m,
        forall|j: int| 0 <= j < strides.len() ==> 0 < #[trigger] strides[j] <= m,
    ensures
        ({
            let next = passes.update(i, passes[i] + strides[i]);
            forall|j: int, l: int|
                0 <= j < next.len() && 0 <= l < next.len() ==> #[trigger] next[j] - #[trigger] next[l] <= m
        }),
{
    let next = passes.update(i, passes[i] + strides[i]);
    assert forall|j: int, l: int| 0 <= j < next.len() && 0 <= l < next.len() implies #[trigger] next[j]
        - #[trigger] next[l] <= m by {
        assert(passes[j] - passes[l] <= m);
        assert(passes[i] <= passes[l]);
        assert(passes[i] <= passes[j]);
    }
}

proof fn lemma_first_min(passes: Seq<u64>, j: int, m: int) -> (f: int)
    requires
        0 <= j <= m < passes.len(),
        is_min_pass(passes, m),
        forall|k: int| 0 <= k < j ==> !is_min_pass(passes, k),
    ensures
        0 <= f < passes.len(),
        is_min_pass(passes, f),
        forall|k: int| 0 <= k < f ==> !is_min_pass(passes, k),
    decreases m - j,
{
    if is_min_pass(passes, j) {
        j
    } else {
        lemma_first_min(passes, j + 1, m)
    }
}

proof fn lemma_min_index(passes: Seq<u64>, k: int) -> (m: int)
    requires
        1 <= k <= passes.len(),
    ensures
        0 <= m < k,
        forall|j: int| 0 <= j < k ==> passes[m] <= #[trigger] passes[j],
    decreases k,
{
    if k == 1 {
        0
    } else {
        let m0 = lemma_min_index(passes, k - 1);
        if passes[k - 1] < passes[m0] {
            k - 1
        } else {
            m0
        }
    }
}

/// Among passes that lie within `BIG_STRIDE / 2` of each other, the task the stride
/// policy picks has the smallest pass.
pub proof fn lemma_stride_pick_is_min(passes: Seq<u64>)
    requires
        passes.len() > 0,
        forall|j: int, l: int|
            0 <= j < passes.len() && 0 <= l < passes.len() ==> #[trigger] passes[j] as int - #[trigger] passes[l] as int
                <= BIG_STRIDE / 2,
    ensures
        0 <= stride_pick(passes) < passes.len(),
        forall|j: int| 0 <= j < passes.len() ==> passes[stride_pick(passes)] <= #[trigger] passes[j],
{
    let m = lemma_min_index(passes, passes.len() as int);
    assert(is_min_pass(passes, m)) by {
        assert forall|j: int| 0 <= j < passes.len() implies !pass_less(#[trigger] passes[j], passes[m]) by {
            assert(passes[j] as int - passes[m] as int <= BIG_STRIDE / 2);
            assert(passes[m] as int - passes[j] as int <= BIG_STRIDE / 2);
            lemma_pass_less_is_less(passes[j], passes[m]);
        }
    }
    let f = lemma_first_min(passes, 0, m);
    let c = stride_pick(passes);
    assert(0 <= c < passes.len() && is_min_pass(passes, c));
    assert forall|j: int| 0 <= j < passes.len() implies passes[c] <= #[trigger] passes[j] by {
        assert(passes[j] as int - passes[c] as int <= BIG_STRIDE / 2);
        assert(passes[c] as int - passes[j] as int <= BIG_STRIDE / 2);
        lemma_pass_less_is_less(passes[j], passes[c]);
        assert(!pass_less(passes[j], passes[c]));
    }
}

/// The ready queue: identifiers of the tasks waiting to run, oldest first.
pub struct TaskManager {
    pub ready_queue: Vec<usize>,
}

impl TaskManager {
    /// An empty queue.
    pub fn new() -> (r: TaskManager)
        ensures
            r.ready_queue@ == Seq::<usize>::empty(),
    {
        TaskManager { ready_queue: Vec::new() }
    }

    /// Puts task `pid` at the back of the queue.
    pub fn add(&mut self, pid: usize)
        ensures
            final(self).ready_queue@ == old(self).ready_queue@.push(pid),
    {
        self.ready_queue.push(pid);
    }

    /// Takes out of the queue the task the stride policy runs next, given the passes
    /// of the queued tasks in queue order; `None` when the queue is empty.
    pub fn fetch(&mut self, passes: &Vec<u64>) -> (r: Option<usize>)
        requires
            passes@.len() == old(self).ready_queue@.len(),
        ensures
            match r {
                Some(t) => {
                    let idx = stride_pick(passes@);
                    &&& old(self).ready_queue@.len() > 0
                    &&& 0 <= idx < old(self).ready_queue@.len()
                    &&& t == old(self).ready_queue@[idx]
                    &&& final(self).ready_queue@ == old(self).ready_queue@.remove(idx)
                },
                None => old(self).ready_queue@.len() == 0 && *final(self) == *old(self),
            },
    {
        if self.ready_queue.len() == 0 {
            return None;
        }
        let idx = pick_min_pass(passes);
        Some(self.take(idx))
    }

    /// Takes the task at `idx` out of the queue.
    pub fn take(&mut self, idx: usize) -> (r: usize)
        requires
            idx < old(self).ready_queue@.len(),
        ensures
            r == old(self).ready_queue@[idx as int],
            final(self).ready_queue@ == old(self).ready_queue@.remove(idx as int),
    {
        self.ready_queue.remove(idx)
    }
}

} // verus!
