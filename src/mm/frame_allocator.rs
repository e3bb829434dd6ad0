use vstd::prelude::*;
use crate::config::{MAX_FRAMES, PAGE_SIZE};

verus! {

/// Hands out the physical frames `[start, end)`: first those given back, most
/// recent first, then those never handed out, in increasing order.
pub struct FrameAllocator {
    start: usize,
    current: usize,
    end: usize,
    recycled: Vec<usize>,
}

impl FrameAllocator {
    pub closed spec fn start(&self) -> usize {
        self.start
    }

    /// One past the last frame managed.
    pub closed spec fn end(&self) -> usize {
        self.end
    }

    /// Whether frame `p` can be handed out.
    pub closed spec fn is_free(&self, p: usize) -> bool {
        (self.current <= p < self.end) || self.recycled@.contains(p)
    }

    /// Whether frame `p` is managed here and currently handed out.
    pub open spec fn is_allocated(&self, p: usize) -> bool {
        self.start() <= p < self.end() && !self.is_free(p)
    }

    /// How many frames can still be handed out.
    pub closed spec fn free_count(&self) -> nat {
        ((self.end - self.current) + self.recycled@.len()) as nat
    }

    pub closed spec fn wf(&self) -> bool {
        &&& self.start <= self.current <= self.end <= MAX_FRAMES
        &&& self.recycled@.no_duplicates()
        &&& forall|i: int|
            0 <= i < self.recycled@.len() ==> self.start <= #[trigger] self.recycled@[i]
                < self.current
    }

    /// An allocator for the frames `[start, end)`, all free.
    pub fn new(start: usize, end: usize) -> (r: FrameAllocator)
        requires
            start <= end <= MAX_FRAMES,
        ensures
            r.wf(),
            r.start() == start,
            r.end() == end,
            r.free_count() == end - start,
            forall|p: usize| r.is_free(p) <==> start <= p < end,
    {
        FrameAllocator { start, current: start, end, recycled: Vec::new() }
    }

    /// Number of frames that can still be handed out.
    pub fn free_frames(&self) -> (r: usize)
        requires
            self.wf(),
        ensures
            r == self.free_count(),
    {
        proof {
            self.lemma_free_count_bound();
        }
        (self.end - self.current) + self.recycled.len()
    }

    proof fn lemma_free_count_bound(&self)
        requires
            self.wf(),
        ensures
            self.free_count() <= self.end - self.start,
    {
        let s = self.recycled@.to_set();
        let r = Set::new(|p: usize| self.start <= p < self.current);
        assert(s.subset_of(r));
        lemma_range_set_len(self.start, self.current);
        vstd::set_lib::lemma_len_subset(s, r);
        self.recycled@.unique_seq_to_set();
    }

    /// A free frame, now handed out; `None` when no frame is free.
    pub fn allocate(&mut self) -> (r: Option<usize>)
        requires
            old(self).wf(),
        ensures
            final(self).wf(),
            final(self).start() == old(self).start(),
            final(self).end() == old(self).end(),
            r.is_none() <==> old(self).free_count() == 0,
            r.is_none() ==> *final(self) == *old(self),
            match r {
                Some(p) => {
                    &&& old(self).is_free(p)
                    &&& old(self).start() <= p < old(self).end()
                    &&& !final(self).is_free(p)
                    &&& final(self).free_count() == old(self).free_count() - 1
                    &&& forall|q: usize| q != p ==> final(self).is_free(q) == old(self).is_free(q)
                },
                None => true,
            },
    {
        if self.recycled.len() > 0 {
            let p = self.recycled.pop().unwrap();
            proof {
                let s = old(self).recycled@;
                assert(s == self.recycled@.push(p));
                assert(s[s.len() - 1] == p);
                assert forall|q: usize| q != p implies self.is_free(q) == old(self).is_free(q) by {
                    if s.contains(q) {
                        let i = s.index_of(q);
                        assert(i != s.len() - 1);
                        assert(self.recycled@[i] == q);
                    }
                    if self.recycled@.contains(q) {
                        let i = self.recycled@.index_of(q);
                        assert(s[i] == q);
                    }
                }
                assert(!self.recycled@.contains(p)) by {
                    if self.recycled@.contains(p) {
                        let i = self.recycled@.index_of(p);
                        assert(s[i] == p);
                        assert(s[s.len() - 1] == p);
                    }
                }
                assert(self.recycled@.no_duplicates()) by {
                    assert forall|i: int, j: int|
                        0 <= i < self.recycled@.len() && 0 <= j < self.recycled@.len() && i != j
                        implies self.recycled@[i] != self.recycled@[j] by {
                        assert(s[i] == self.recycled@[i] && s[j] == self.recycled@[j]);
                    }
                }
                assert forall|i: int| 0 <= i < self.recycled@.len() implies self.start
                    <= #[trigger] self.recycled@[i] < self.current by {
                    assert(s[i] == self.recycled@[i]);
                }
                assert(p < self.current);
            }
            Some(p)
        } else if self.current == self.end {
            None
        } else {
            let p = self.current;
            self.current = self.current + 1;
            proof {
                assert(!self.recycled@.contains(p)) by {
                    if self.recycled@.contains(p) {
                        let i = self.recycled@.index_of(p);
                        assert(self.recycled@[i] < old(self).current);
                    }
                }
            }
            Some(p)
        }
    }

    /// Whether `p` is a frame of this allocator that is handed out.
    pub fn is_allocated_frame(&self, p: usize) -> (r: bool)
        requires
            self.wf(),
        ensures
            r == self.is_allocated(p),
    {
        if p < self.start || p >= self.current {
            return false;
        }
        let mut i: usize = 0;
        while i < self.recycled.len()
            invariant
                i <= self.recycled@.len(),
                forall|j: int| 0 <= j < i ==> self.recycled@[j] != p,
            decreases self.recycled@.len() - i,
        {
            if self.recycled[i] == p {
                return false;
            }
            i += 1;
        }
        true
    }

    /// Gives frame `p` back. A frame that is not handed out is left alone, and
    /// the result is then `false`.
    pub fn dealloc(&mut self, p: usize) -> (r: bool)
        requires
            old(self).wf(),
        ensures
            final(self).wf(),
            final(self).start() == old(self).start(),
            final(self).end() == old(self).end(),
            r == old(self).is_allocated(p),
            r ==> {
                &&& final(self).is_free(p)
                &&& final(self).free_count() == old(self).free_count() + 1
                &&& forall|q: usize| q != p ==> final(self).is_free(q) == old(self).is_free(q)
            },
            !r ==> *final(self) == *old(self),
    {
        if !self.is_allocated_frame(p) {
            return false;
        }
        self.recycled.push(p);
        proof {
            let s = old(self).recycled@;
            assert(self.recycled@ == s.push(p));
            assert(self.recycled@[s.len() as int] == p);
            assert forall|q: usize| q != p implies self.is_free(q) == old(self).is_free(q) by {
                if s.contains(q) {
                    let i = s.index_of(q);
                    assert(self.recycled@[i] == q);
                }
                if self.recycled@.contains(q) {
                    let i = self.recycled@.index_of(q);
                    assert(i < s.len());
                    assert(s[i] == q);
                }
            }
            assert(self.recycled@.no_duplicates()) by {
                assert forall|i: int, j: int|
                    0 <= i < self.recycled@.len() && 0 <= j < self.recycled@.len() && i != j
                    implies self.recycled@[i] != self.recycled@[j] by {
                    if i < s.len() && j < s.len() {
                        assert(s[i] == self.recycled@[i] && s[j] == self.recycled@[j]);
                    } else if i < s.len() {
                        assert(s[i] == self.recycled@[i]);
                        assert(s.contains(s[i]));
                    } else {
                        assert(s[j] == self.recycled@[j]);
                        assert(s.contains(s[j]));
                    }
                }
            }
            assert forall|i: int| 0 <= i < self.recycled@.len() implies self.start
                <= #[trigger] self.recycled@[i] < self.current by {
                if i < s.len() {
                    assert(s[i] == self.recycled@[i]);
                }
            }
        }
        true
    }
}

proof fn lemma_range_set_len(lo: usize, hi: usize)
    requires
        lo <= hi,
    ensures
        Set::new(|p: usize| lo <= p < hi).finite(),
        Set::new(|p: usize| lo <= p < hi).len() == hi - lo,
    decreases hi - lo,
{
    if lo == hi {
        assert(Set::new(|p: usize| lo <= p < hi) =~= Set::<usize>::empty());
    } else {
        let h = (hi - 1) as usize;
        lemma_range_set_len(lo, h);
        assert(Set::new(|p: usize| lo <= p < hi) =~= Set::new(|p: usize| lo <= p < h).insert(h));
    }
}

/// The physical memory of the machine, frame by frame, and the allocator of its frames.
pub struct PhysMemory {
    frames: FrameAllocator,
    bytes: Vec<u8>,
}

/// Physical address of byte `off` of frame `ppn`.
pub open spec fn pa_of(ppn: int, off: int) -> int {
    ppn * PAGE_SIZE as int + off
}

impl PhysMemory {
    /// The state of the frame allocator.
    pub closed spec fn frame_alloc(&self) -> FrameAllocator {
        self.frames
    }

    /// The bytes of memory, by physical address.
    pub closed spec fn view(&self) -> Seq<u8> {
        self.bytes@
    }

    pub open spec fn wf(&self) -> bool {
        &&& self.frame_alloc().wf()
        &&& self.frame_alloc().end() <= MAX_FRAMES
        &&& self@.len() == self.frame_alloc().end() * PAGE_SIZE
    }

    /// Memory of `end` frames, all zero, of which `[start, end)` are free.
    pub fn new(start: usize, end: usize) -> (r: PhysMemory)
        requires
            start <= end <= MAX_FRAMES,
        ensures
            r.wf(),
            r.frame_alloc().start() == start,
            r.frame_alloc().end() == end,
            forall|p: usize| r.frame_alloc().is_free(p) <==> start <= p < end,
            r.frame_alloc().free_count() == end - start,
            forall|i: int| 0 <= i < r@.len() ==> r@[i] == 0,
    {
        let bytes = vec![0u8; end * PAGE_SIZE];
        PhysMemory { frames: FrameAllocator::new(start, end), bytes }
    }

    /// One past the last frame of memory.
    pub fn frame_alloc_end(&self) -> (r: usize)
        ensures
            r == self.frame_alloc().end(),
    {
        self.frames.end
    }

    /// Number of frames that can still be handed out.
    pub fn free_frames(&self) -> (r: usize)
        requires
            self.wf(),
        ensures
            r == self.frame_alloc().free_count(),
    {
        self.frames.free_frames()
    }

    /// Gives frame `p` back; a frame that is not handed out is left alone, and
    /// the result is then `false`.
    pub fn dealloc_frame(&mut self, p: usize) -> (r: bool)
        requires
            old(self).wf(),
        ensures
            final(self).wf(),
            final(self)@ == old(self)@,
            final(self).frame_alloc().start() == old(self).frame_alloc().start(),
            final(self).frame_alloc().end() == old(self).frame_alloc().end(),
            r == old(self).frame_alloc().is_allocated(p),
            r ==> {
                &&& final(self).frame_alloc().is_free(p)
                &&& final(self).frame_alloc().free_count() == old(self).frame_alloc().free_count() + 1
                &&& forall|q: usize|
                    q != p ==> final(self).frame_alloc().is_free(q) == old(self).frame_alloc().is_free(q)
            },
            !r ==> *final(self) == *old(self),
    {
        self.frames.dealloc(p)
    }

    /// The byte at physical address `pa`.
    pub fn read(&self, pa: usize) -> (r: u8)
        requires
            pa < self@.len(),
        ensures
            r == self@[pa as int],
    {
        self.bytes[pa]
    }

    /// Stores `b` at physical address `pa`.
    pub fn write(&mut self, pa: usize, b: u8)
        requires
            pa < old(self)@.len(),
        ensures
            final(self)@ == old(self)@.update(pa as int, b),
            final(self).frame_alloc() == old(self).frame_alloc(),
    {
        self.bytes.set(pa, b);
    }

    /// Fills frame `ppn` with zeros.
    pub fn zero_frame(&mut self, ppn: usize)
        requires
            old(self).wf(),
            ppn < old(self).frame_alloc().end(),
        ensures
            final(self).wf(),
            final(self).frame_alloc() == old(self).frame_alloc(),
            forall|i: int|
                0 <= i < final(self)@.len() ==> #[trigger] final(self)@[i] == if pa_of(
                    ppn as int,
                    0,
                ) <= i < pa_of(ppn as int, PAGE_SIZE as int) {
                    0u8
                } else {
                    old(self)@[i]
                },
    {
        proof {
            lemma_frame_in_bounds(ppn, self.frame_alloc().end());
        }
        let base = ppn * PAGE_SIZE;
        let mut k: usize = 0;
        while k < PAGE_SIZE
            invariant
                self.wf(),
                self.frame_alloc() == old(self).frame_alloc(),
                base == pa_of(ppn as int, 0),
                base + PAGE_SIZE <= self@.len(),
                k <= PAGE_SIZE,
                forall|i: int|
                    0 <= i < self@.len() ==> #[trigger] self@[i] == if base <= i < base + k {
                        0u8
                    } else {
                        old(self)@[i]
                    },
            decreases PAGE_SIZE - k,
        {
            self.bytes.set(base + k, 0);
            k += 1;
        }
    }

    /// Copies frame `src` over frame `dst`.
    pub fn copy_frame(&mut self, src: usize, dst: usize)
        requires
            old(self).wf(),
            src < old(self).frame_alloc().end(),
            dst < old(self).frame_alloc().end(),
        ensures
            final(self).wf(),
            final(self).frame_alloc() == old(self).frame_alloc(),
            forall|i: int|
                0 <= i < final(self)@.len() ==> #[trigger] final(self)@[i] == if pa_of(
                    dst as int,
                    0,
                ) <= i < pa_of(dst as int, PAGE_SIZE as int) {
                    old(self)@[pa_of(src as int, i - pa_of(dst as int, 0))]
                } else {
                    old(self)@[i]
                },
    {
        proof {
            lemma_frame_in_bounds(src, self.frame_alloc().end());
            lemma_frame_in_bounds(dst, self.frame_alloc().end());
            if src != dst {
                lemma_frames_disjoint(src, dst);
            }
        }
        let sbase = src * PAGE_SIZE;
        let dbase = dst * PAGE_SIZE;
        let mut k: usize = 0;
        while k < PAGE_SIZE
            invariant
                self.wf(),
                self.frame_alloc() == old(self).frame_alloc(),
                sbase == pa_of(src as int, 0),
                dbase == pa_of(dst as int, 0),
                sbase + PAGE_SIZE <= self@.len(),
                dbase + PAGE_SIZE <= self@.len(),
                sbase + PAGE_SIZE <= dbase || dbase + PAGE_SIZE <= sbase || sbase == dbase,
                k <= PAGE_SIZE,
                forall|i: int|
                    0 <= i < self@.len() ==> #[trigger] self@[i] == if dbase <= i < dbase + k {
                        old(self)@[sbase + (i - dbase)]
                    } else {
                        old(self)@[i]
                    },
            decreases PAGE_SIZE - k,
        {
            let b = self.bytes[sbase + k];
            self.bytes.set(dbase + k, b);
            k += 1;
        }
    }

    /// A free frame, filled with zeros and now handed out; `None` when no frame is free.
    pub fn alloc_frame(&mut self) -> (r: Option<usize>)
        requires
            old(self).wf(),
        ensures
            final(self).wf(),
            final(self).frame_alloc().start() == old(self).frame_alloc().start(),
            final(self).frame_alloc().end() == old(self).frame_alloc().end(),
            r.is_none() <==> old(self).frame_alloc().free_count() == 0,
            r.is_none() ==> *final(self) == *old(self),
            match r {
                Some(p) => {
                    &&& old(self).frame_alloc().is_free(p)
                    &&& old(self).frame_alloc().start() <= p < old(self).frame_alloc().end()
                    &&& !final(self).frame_alloc().is_free(p)
                    &&& final(self).frame_alloc().free_count() == old(self).frame_alloc().free_count() - 1
                    &&& forall|q: usize|
                        q != p ==> final(self).frame_alloc().is_free(q) == old(self).frame_alloc().is_free(q)
                    &&& forall|i: int|
                        0 <= i < final(self)@.len() ==> #[trigger] final(self)@[i] == if pa_of(
                            p as int,
                            0,
                        ) <= i < pa_of(p as int, PAGE_SIZE as int) {
                            0u8
                        } else {
                            old(self)@[i]
                        }
                },
                None => true,
            },
    {
        match self.frames.allocate() {
            Some(p) => {
                self.zero_frame(p);
                Some(p)
            },
            None => None,
        }
    }
}

/// A frame below `end` lies inside memory of `end` frames.
pub proof fn lemma_frame_in_bounds(ppn: usize, end: usize)
    requires
        ppn < end <= MAX_FRAMES,
    ensures
        pa_of(ppn as int, PAGE_SIZE as int) <= end * PAGE_SIZE,
        pa_of(ppn as int, PAGE_SIZE as int) <= MAX_FRAMES * PAGE_SIZE,
{
    assert(ppn * PAGE_SIZE + PAGE_SIZE <= end * PAGE_SIZE) by (nonlinear_arith)
        requires
            ppn < end,
    ;
    assert(end * PAGE_SIZE <= MAX_FRAMES * PAGE_SIZE) by (nonlinear_arith)
        requires
            end <= MAX_FRAMES,
    ;
}

proof fn lemma_frames_disjoint(a: usize, b: usize)
    requires
        a != b,
    ensures
        pa_of(a as int, PAGE_SIZE as int) <= pa_of(b as int, 0) || pa_of(b as int, PAGE_SIZE as int)
            <= pa_of(a as int, 0),
{
    if a < b {
        assert(a * PAGE_SIZE + PAGE_SIZE <= b * PAGE_SIZE) by (nonlinear_arith)
            requires
                a < b,
        ;
    } else {
        assert(b * PAGE_SIZE + PAGE_SIZE <= a * PAGE_SIZE) by (nonlinear_arith)
            requires
                b < a,
        ;
    }
}

} // verus!
