use vstd::prelude::*;
use crate::config::{kernel_stack_position, kernel_stack_position_spec, MAX_PID};

verus! {

/// Hands out process identifiers: those given back first, most recent first, then
/// fresh ones in increasing order.
pub struct PidAllocator {
    current: usize,
    recycled: Vec<usize>,
}

impl PidAllocator {
    /// Identifiers handed out at least once are those below this.
    pub closed spec fn current(&self) -> usize {
        self.current
    }

    /// Identifiers given back and not handed out again.
    pub closed spec fn recycled(&self) -> Seq<usize> {
        self.recycled@
    }

    /// Whether `pid` is handed out.
    pub open spec fn in_use(&self, pid: usize) -> bool {
        pid < self.current() && !self.recycled().contains(pid)
    }

    pub closed spec fn wf(&self) -> bool {
        &&& self.current <= MAX_PID
        &&& self.recycled@.no_duplicates()
        &&& forall|i: int| 0 <= i < self.recycled@.len() ==> #[trigger] self.recycled@[i] < self.current
    }

    /// An allocator that has handed out nothing.
    pub fn new() -> (r: PidAllocator)
        ensures
            r.wf(),
            r.current() == 0,
            r.recycled() == Seq::<usize>::empty(),
    {
        PidAllocator { current: 0, recycled: Vec::new() }
    }

    /// An identifier not in use, now in use; `None` when all `MAX_PID` are in use.
    pub fn allocate(&mut self) -> (r: Option<usize>)
        requires
            old(self).wf(),
        ensures
            final(self).wf(),
            match r {
                Some(p) => {
                    &&& !old(self).in_use(p)
                    &&& p < MAX_PID
                    &&& final(self).in_use(p)
                    &&& forall|q: usize| q != p ==> final(self).in_use(q) == old(self).in_use(q)
                    &&& if old(self).recycled().len() > 0 {
                        &&& p == old(self).recycled().last()
                        &&& final(self).current() == old(self).current()
                        &&& final(self).recycled() == old(self).recycled().drop_last()
                    } else {
                        &&& p == old(self).current()
                        &&& final(self).current() == old(self).current() + 1
                        &&& final(self).recycled() == old(self).recycled()
                    }
                },
                None => old(self).recycled().len() == 0 && old(self).current() == MAX_PID
                    && *final(self) == *old(self),
            },
    {
        if self.recycled.len() > 0 {
            let p = self.recycled.pop().unwrap();
            proof {
                let s = old(self).recycled@;
                assert(s == self.recycled@.push(p));
                assert(s[s.len() - 1] == p);
                assert forall|q: usize| q != p implies self.in_use(q) == old(self).in_use(q) by {
                    if s.contains(q) {
                        let i = s.index_of(q);
                        assert(i != s.len() - 1);
                        assert(self.recycled@[i] == q);
                    }
                    if self.recycled@.contains(q) {
                        let i = self.recycled@.index_of(q);
                        assert(s[i] == q);
                    }
                }
                assert(!self.recycled@.contains(p)) by {
                    if self.recycled@.contains(p) {
                        let i = self.recycled@.index_of(p);
                        assert(s[i] == p);
                    }
                }
                assert(self.recycled@.no_duplicates()) by {
                    assert forall|i: int, j: int|
                        0 <= i < self.recycled@.len() && 0 <= j < self.recycled@.len() && i != j
                        implies self.recycled@[i] != self.recycled@[j] by {
                        assert(s[i] == self.recycled@[i] && s[j] == self.recycled@[j]);
                    }
                }
                assert forall|i: int| 0 <= i < self.recycled@.len() implies #[trigger] self.recycled@[i]
                    < self.current by {
                    assert(s[i] == self.recycled@[i]);
                }
            }
            Some(p)
        } else if self.current == MAX_PID {
            None
        } else {
            let p = self.current;
            self.current = self.current + 1;
            Some(p)
        }
    }

    /// The identifier that [`PidAllocator::allocate`] would hand out now.
    pub fn peek(&self) -> (r: Option<usize>)
        requires
            self.wf(),
        ensures
            match r {
                Some(p) => {
                    &&& !self.in_use(p)
                    &&& p < MAX_PID
                    &&& if self.recycled().len() > 0 {
                        p == self.recycled().last()
                    } else {
                        p == self.current()
                    }
                },
                None => self.recycled().len() == 0 && self.current() == MAX_PID,
            },
    {
        if self.recycled.len() > 0 {
            let p = self.recycled[self.recycled.len() - 1];
            proof {
                let s = self.recycled@;
                assert(s[s.len() - 1] < self.current);
                assert(s.contains(p));
            }
            proof {
                assert(!self.in_use(p));
            }
            Some(p)
        } else if self.current == MAX_PID {
            None
        } else {
            proof {
                assert(!self.recycled@.contains(self.current)) by {
                    if self.recycled@.contains(self.current) {
                        let i = self.recycled@.index_of(self.current);
                        assert(self.recycled@[i] < self.current);
                    }
                }
            }
            Some(self.current)
        }
    }

    /// Gives `pid` back; one that is not in use is left alone, and the result is then `false`.
    pub fn dealloc(&mut self, pid: usize) -> (r: bool)
        requires
            old(self).wf(),
        ensures
            final(self).wf(),
            r == old(self).in_use(pid),
            r ==> final(self).current() == old(self).current() && final(self).recycled() == old(
                self,
            ).recycled().push(pid),
            !r ==> *final(self) == *old(self),
    {
        if pid >= self.current {
            return false;
        }
        let mut i: usize = 0;
        while i < self.recycled.len()
            invariant
                i <= self.recycled@.len(),
                forall|j: int| 0 <= j < i ==> self.recycled@[j] != pid,
                self.wf(),
                *self == *old(self),
                pid < self.current,
            decreases self.recycled@.len() - i,
        {
            if self.recycled[i] == pid {
                assert(self.recycled@.contains(pid));
                return false;
            }
            i += 1;
        }
        let ghost s = self.recycled@;
        self.recycled.push(pid);
        proof {
            assert(!s.contains(pid));
            assert(self.recycled@.no_duplicates()) by {
                assert forall|a: int, b: int|
                    0 <= a < self.recycled@.len() && 0 <= b < self.recycled@.len() && a != b
                    implies self.recycled@[a] != self.recycled@[b] by {
                    if a < s.len() && b < s.len() {
                        assert(s[a] == self.recycled@[a] && s[b] == self.recycled@[b]);
                    } else if a < s.len() {
                        assert(s[a] == self.recycled@[a]);
                        assert(s.contains(s[a]));
                    } else {
                        assert(s[b] == self.recycled@[b]);
                        assert(s.contains(s[b]));
                    }
                }
            }
            assert forall|j: int| 0 <= j < self.recycled@.len() implies #[trigger] self.recycled@[j]
                < self.current by {
                if j < s.len() {
                    assert(s[j] == self.recycled@[j]);
                }
            }
        }
        true
    }
}

/// The identifier given back last is the next one handed out.
pub proof fn lemma_reuse_last_freed(a: PidAllocator, b: PidAllocator, pid: usize)
    requires
        b.recycled() == a.recycled().push(pid),
    ensures
        b.recycled().len() > 0,
        b.recycled().last() == pid,
{
}

/// The kernel stack of a process: its place follows from the process identifier.
#[derive(Clone, Copy, PartialEq, Eq, Structural, Debug)]
pub struct KernelStack {
    pub pid: usize,
}

impl KernelStack {
    /// The stack of process `pid`.
    pub fn new(pid: usize) -> (r: KernelStack)
        ensures
            r.pid == pid,
    {
        KernelStack { pid }
    }

    /// Address just above the stack.
    pub fn get_top(&self) -> (r: usize)
        requires
            self.pid < MAX_PID,
        ensures
            r == kernel_stack_position_spec(self.pid as nat).1,
    {
        let (_, top) = kernel_stack_position(self.pid);
        top
    }
}

} // verus!
