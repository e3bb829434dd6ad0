use vstd::prelude::*;
use crate::config::{PAGE_SIZE, TRAMPOLINE, TRAMPOLINE_VPN, TRAP_CONTEXT, TRAP_CONTEXT_VPN, USER_STACK_SIZE};
use crate::mm::address::{aligned, ceil, floor, is_aligned, vpn_ceil, vpn_of, PERM_R, PERM_U, PERM_W, PERM_X, PTE_V};
use crate::mm::frame_allocator::{pa_of, PhysMemory};
use crate::mm::translate::{apply_writes, segment_loaded, translated_pa};
use crate::mm::page_table::{PageTable, PageTableEntry, distinct_vpns, entries_map, has_vpn, token_of};

verus! {

/// Flags of the trampoline mapping: readable, executable, not for user mode.
pub open spec fn trampoline_flags() -> u8 {
    PERM_R | PERM_X | PTE_V
}

/// Whether `pt` maps `vpn` with the user bit set.
pub open spec fn user_mapped(pt: Map<usize, (usize, u8)>, vpn: usize) -> bool {
    pt.contains_key(vpn) && pt[vpn].1 & PERM_U == PERM_U
}

/// An address space: a page table whose pages are backed by frames of physical memory.
pub struct MemorySet {
    page_table: PageTable,
}

impl MemorySet {
    /// Page number to (frame, flags).
    pub closed spec fn view(&self) -> Map<usize, (usize, u8)> {
        self.page_table@
    }

    /// Frame that holds the root of the page table.
    pub closed spec fn root(&self) -> usize {
        self.page_table.root()
    }

    /// The page table is well formed, every frame it names lies below `end`, and
    /// the trampoline page is mapped to frame `tramp`.
    pub open spec fn wf(&self, end: usize, tramp: usize) -> bool {
        &&& self.pt_wf()
        &&& self.root() < end
        &&& self@.contains_key(TRAMPOLINE_VPN as usize)
        &&& self@[TRAMPOLINE_VPN as usize] == (tramp, trampoline_flags())
        &&& forall|v: usize| #[trigger] self@.contains_key(v) ==> self@[v].0 < end
    }

    /// An address space that maps nothing but the trampoline.
    pub fn new_bare(root_ppn: usize, tramp: usize, end: usize) -> (r: MemorySet)
        requires
            root_ppn < end,
            tramp < end,
        ensures
            r.wf(end, tramp),
            r.root() == root_ppn,
            r@ == Map::<usize, (usize, u8)>::empty().insert(
                TRAMPOLINE_VPN as usize,
                (tramp, trampoline_flags()),
            ),
    {
        let mut pt = PageTable::new(root_ppn);
        pt.map(TRAMPOLINE_VPN, tramp, PERM_R | PERM_X);
        MemorySet { page_table: pt }
    }

    /// Frame that holds the root of the page table.
    pub fn root_ppn(&self) -> (r: usize)
        ensures
            r == self.root(),
    {
        self.page_table.root_ppn()
    }

    /// Token of the page table.
    pub fn token(&self) -> (r: usize)
        ensures
            r == token_of(self.root()),
    {
        self.page_table.token()
    }

    /// The mapping of `vpn`, if there is one.
    pub fn translate(&self, vpn: usize) -> (r: Option<PageTableEntry>)
        requires
            self.pt_wf(),
        ensures
            match r {
                Some(e) => self@.contains_key(vpn) && self@[vpn] == (e.ppn, e.flags) && e.vpn
                    == vpn,
                None => !self@.contains_key(vpn),
            },
    {
        self.page_table.translate(vpn)
    }

    /// The page table is well formed.
    pub closed spec fn pt_wf(&self) -> bool {
        self.page_table.wf()
    }

    /// Whether every page of `[s, e)` is unmapped.
    fn range_unmapped(&self, s: usize, e: usize) -> (r: bool)
        requires
            self.page_table.wf(),
        ensures
            r == forall|v: usize| s <= v < e ==> !#[trigger] self@.contains_key(v),
    {
        let mut v = s;
        while v < e
            invariant
                self.page_table.wf(),
                s <= v,
                forall|u: usize| s <= u < v ==> !#[trigger] self@.contains_key(u),
            decreases e - v,
        {
            if self.page_table.is_mapped(v) {
                assert(self@.contains_key(v));
                return false;
            }
            v += 1;
        }
        true
    }

    /// Whether every page of `[s, e)` is mapped for user mode.
    fn range_user_mapped(&self, s: usize, e: usize) -> (r: bool)
        requires
            self.page_table.wf(),
        ensures
            r == forall|v: usize| s <= v < e ==> #[trigger] user_mapped(self@, v),
    {
        let mut v = s;
        while v < e
            invariant
                self.page_table.wf(),
                s <= v,
                forall|u: usize| s <= u < v ==> #[trigger] user_mapped(self@, u),
            decreases e - v,
        {
            match self.page_table.translate(v) {
                Some(pte) => {
                    if !pte.has_flags(PERM_U) {
                        assert(!user_mapped(self@, v));
                        return false;
                    }
                },
                None => {
                    assert(!user_mapped(self@, v));
                    return false;
                },
            }
            v += 1;
        }
        true
    }

    /// Maps `[start_va, end_va)` to fresh zeroed frames with `perm`, all pages or none.
    /// Returns 0 on success and -1 when `start_va` is not page aligned, when the range
    /// holds no page, when a page of it is already mapped, or when too few frames are free.
    pub fn insert_framed_area(
        &mut self,
        mem: &mut PhysMemory,
        start_va: usize,
        end_va: usize,
        perm: u8,
    ) -> (r: isize)
        requires
            old(self).wf(old(mem).frame_alloc().end(), old(self)@[TRAMPOLINE_VPN as usize].0),
            old(mem).wf(),
        ensures
            r == 0 || r == -1,
            r == -1 <==> insert_fails(old(self)@, old(mem).frame_alloc().free_count(), start_va, end_va),
            r == -1 ==> *final(self) == *old(self) && *final(mem) == *old(mem),
            r == 0 ==> area_inserted(
                old(self)@,
                final(self)@,
                *old(mem),
                *final(mem),
                vpn_of(start_va as int) as usize,
                vpn_ceil(end_va as int) as usize,
                perm,
            ),
            final(self).wf(final(mem).frame_alloc().end(), old(self)@[TRAMPOLINE_VPN as usize].0),
            final(self).root() == old(self).root(),
            final(mem).wf(),
            final(mem).frame_alloc().end() == old(mem).frame_alloc().end(),
            final(mem).frame_alloc().start() == old(mem).frame_alloc().start(),
    {
        let ghost tramp = self@[TRAMPOLINE_VPN as usize].0;
        let ghost end = mem.frame_alloc().end();
        if !aligned(start_va) {
            return -1;
        }
        let s = floor(start_va);
        let e = ceil(end_va);
        if e <= s {
            return -1;
        }
        if !self.range_unmapped(s, e) {
            return -1;
        }
        if mem.free_frames() < e - s {
            return -1;
        }
        let mut v = s;
        while v < e
            invariant
                s <= v <= e,
                self.wf(end, tramp),
                self.root() == old(self).root(),
                mem.wf(),
                mem.frame_alloc().end() == end,
                mem.frame_alloc().start() == old(mem).frame_alloc().start(),
                mem.frame_alloc().free_count() == old(mem).frame_alloc().free_count() - (v - s),
                old(mem).frame_alloc().free_count() >= e - s,
                forall|u: usize| s <= u < e ==> !#[trigger] old(self)@.contains_key(u),
                forall|u: usize|
                    #[trigger] self@.contains_key(u) <==> (old(self)@.contains_key(u) || (s <= u
                        < v)),
                forall|u: usize| #[trigger] old(self)@.contains_key(u) ==> self@[u] == old(self)@[u],
                forall|u: usize| s <= u < v ==> (#[trigger] self@[u]).1 == perm | PTE_V,
                forall|u: usize|
                    s <= u < v ==> old(mem).frame_alloc().is_free((#[trigger] self@[u]).0),
                forall|u: usize| s <= u < v ==> !mem.frame_alloc().is_free((#[trigger] self@[u]).0),
                forall|u1: usize, u2: usize|
                    s <= u1 < v && s <= u2 < v && u1 != u2 ==> (#[trigger] self@[u1]).0 != (
                    #[trigger] self@[u2]).0,
                forall|q: usize| #[trigger] mem.frame_alloc().is_free(q) ==> old(mem).frame_alloc().is_free(q),
                forall|q: usize|
                    old(mem).frame_alloc().is_free(q) && !#[trigger] mem.frame_alloc().is_free(q)
                        ==> exists|u: usize| s <= u < v && #[trigger] self@[u].0 == q,
                forall|u: usize, k: int|
                    s <= u < v && 0 <= k < PAGE_SIZE ==> #[trigger] mem@[pa_of(
                        (#[trigger] self@[u]).0 as int,
                        k,
                    )] == 0,
                forall|i: int|
                    0 <= i < mem@.len() && !old(mem).frame_alloc().is_free((i / PAGE_SIZE as int) as usize)
                        ==> #[trigger] mem@[i] == old(mem)@[i],
            decreases e - v,
        {
            let ghost mem0 = *mem;
            let ghost pt0 = self@;
            let p = match mem.alloc_frame() {
                Some(p) => p,
                None => {
                    return -1;
                },
            };
            proof {
                assert forall|i: int|
                    0 <= i < mem@.len() && !old(mem).frame_alloc().is_free((i / PAGE_SIZE as int) as usize)
                    implies #[trigger] mem@[i] == old(mem)@[i] by {
                    if pa_of(p as int, 0) <= i < pa_of(p as int, PAGE_SIZE as int) {
                        lemma_div_in_frame(p as int, i);
                    }
                }
                assert forall|u: usize, k: int|
                    s <= u < v && 0 <= k < PAGE_SIZE implies #[trigger] mem@[pa_of(
                        (#[trigger] pt0[u]).0 as int,
                        k,
                    )] == 0 by {
                    assert(pt0.contains_key(u));
                    let f = pt0[u].0;
                    assert(f != p);
                    lemma_frame_bounds(f, k);
                    crate::mm::frame_allocator::lemma_frame_in_bounds(f, end);
                    assert(mem0@[pa_of(f as int, k)] == 0);
                    lemma_pa_outside_frame(f, p, k);
                }
                assert forall|k: int| 0 <= k < PAGE_SIZE implies #[trigger] mem@[pa_of(p as int, k)] == 0 by {
                    lemma_frame_bounds(p, k);
                    crate::mm::frame_allocator::lemma_frame_in_bounds(p, end);
                }
            }
            self.page_table.map(v, p, perm);
            proof {
                assert forall|q: usize|
                    old(mem).frame_alloc().is_free(q) && !#[trigger] mem.frame_alloc().is_free(q)
                        implies exists|u: usize| s <= u < v + 1 && #[trigger] self@[u].0 == q by {
                    if q == p {
                        assert(self@[v].0 == q);
                    } else {
                        let u = choose|u: usize| s <= u < v && #[trigger] pt0[u].0 == q;
                        assert(self@[u] == pt0[u]);
                    }
                }
            }
            v += 1;
        }
        0
    }

    /// Unmaps every page of `[start_va, end_va)` and gives its frame back, all pages
    /// or none. Returns 0 on success and -1 when `start_va` is not page aligned or a
    /// page of the range is not mapped for user mode.
    pub fn remove_frame_area(&mut self, mem: &mut PhysMemory, start_va: usize, end_va: usize) -> (r:
        isize)
        requires
            old(self).wf(old(mem).frame_alloc().end(), old(self)@[TRAMPOLINE_VPN as usize].0),
            old(mem).wf(),
        ensures
            r == 0 || r == -1,
            r == -1 <==> remove_fails(old(self)@, start_va, end_va),
            r == -1 ==> *final(self) == *old(self) && *final(mem) == *old(mem),
            r == 0 ==> area_removed(
                old(self)@,
                final(self)@,
                *old(mem),
                *final(mem),
                vpn_of(start_va as int) as usize,
                vpn_ceil(end_va as int) as usize,
            ),
            final(self).wf(final(mem).frame_alloc().end(), old(self)@[TRAMPOLINE_VPN as usize].0),
            final(self).root() == old(self).root(),
            final(mem).wf(),
            final(mem).frame_alloc().end() == old(mem).frame_alloc().end(),
            final(mem).frame_alloc().start() == old(mem).frame_alloc().start(),
    {
        let ghost tramp = self@[TRAMPOLINE_VPN as usize].0;
        let ghost end = mem.frame_alloc().end();
        if !aligned(start_va) {
            return -1;
        }
        let s = floor(start_va);
        let e = ceil(end_va);
        if !self.range_user_mapped(s, e) {
            return -1;
        }
        proof {
            lemma_trampoline_not_user();
        }
        if e <= s {
            return 0;
        }
        let mut v = s;
        while v < e
            invariant
                s <= v <= e,
                self.wf(end, tramp),
                self.root() == old(self).root(),
                mem.wf(),
                mem.frame_alloc().end() == end,
                mem.frame_alloc().start() == old(mem).frame_alloc().start(),
                mem@ == old(mem)@,
                trampoline_flags() & PERM_U != PERM_U,
                old(self)@.contains_key(TRAMPOLINE_VPN as usize),
                old(self)@[TRAMPOLINE_VPN as usize] == (tramp, trampoline_flags()),
                forall|u: usize| s <= u < e ==> #[trigger] user_mapped(old(self)@, u),
                forall|u: usize|
                    #[trigger] self@.contains_key(u) <==> (old(self)@.contains_key(u) && !(s <= u
                        < v)),
                forall|u: usize| #[trigger] self@.contains_key(u) ==> self@[u] == old(self)@[u],
                forall|u: usize|
                    s <= u < v && old(mem).frame_alloc().is_allocated(#[trigger] old(self)@[u].0)
                        ==> mem.frame_alloc().is_free(old(self)@[u].0),
                forall|q: usize| #[trigger] old(mem).frame_alloc().is_free(q) ==> mem.frame_alloc().is_free(q),
                forall|q: usize|
                    #[trigger] mem.frame_alloc().is_free(q) && !old(mem).frame_alloc().is_free(q) ==> exists|u: usize|
                        s <= u < v && #[trigger] old(self)@[u].0 == q,
            decreases e - v,
        {
            assert(user_mapped(old(self)@, v));
            assert(v != TRAMPOLINE_VPN);
            let pte = self.page_table.translate(v);
            match pte {
                Some(pte) => {
                    let ghost mem0 = *mem;
                    self.page_table.unmap(v);
                    let _ = mem.dealloc_frame(pte.ppn);
                    proof {
                        assert forall|q: usize|
                            #[trigger] mem.frame_alloc().is_free(q) && !old(mem).frame_alloc().is_free(q)
                            implies exists|u: usize| s <= u < v + 1 && #[trigger] old(self)@[u].0
                            == q by {
                            if q == pte.ppn {
                                assert(old(self)@[v].0 == q);
                            } else {
                                assert(mem0.frame_alloc().is_free(q));
                            }
                        }
                        assert forall|u: usize|
                            s <= u < v + 1 && old(mem).frame_alloc().is_allocated(
                                #[trigger] old(self)@[u].0,
                            ) implies mem.frame_alloc().is_free(old(self)@[u].0) by {
                            if u < v && old(self)@[u].0 != pte.ppn {
                                assert(mem0.frame_alloc().is_free(old(self)@[u].0));
                            }
                            if u == v && !mem0.frame_alloc().is_allocated(pte.ppn) {
                                assert(mem0.frame_alloc().is_free(pte.ppn) || !(mem0.frame_alloc().start() <= pte.ppn < mem0.frame_alloc().end()));
                            }
                        }
                    }
                },
                None => {},
            }
            v += 1;
        }
        proof {
            assert forall|u: usize| #[trigger] self@.contains_key(u) <==> (old(self)@.contains_key(u)
                && !(s <= u < e)) by {
                if s <= u < e {
                    assert(u < v);
                }
            }
        }
        0
    }

    /// Unmaps every page but the trampoline and gives the frames back; the table stays.
    pub fn recycle_data_pages(&mut self, mem: &mut PhysMemory)
        requires
            old(self).wf(old(mem).frame_alloc().end(), old(self)@[TRAMPOLINE_VPN as usize].0),
            old(mem).wf(),
        ensures
            final(self).wf(final(mem).frame_alloc().end(), old(self)@[TRAMPOLINE_VPN as usize].0),
            final(self)@ == Map::<usize, (usize, u8)>::empty().insert(
                TRAMPOLINE_VPN as usize,
                old(self)@[TRAMPOLINE_VPN as usize],
            ),
            final(self).root() == old(self).root(),
            final(mem).wf(),
            final(mem)@ == old(mem)@,
            final(mem).frame_alloc().end() == old(mem).frame_alloc().end(),
            final(mem).frame_alloc().start() == old(mem).frame_alloc().start(),
            forall|q: usize| #[trigger] old(mem).frame_alloc().is_free(q) ==> final(mem).frame_alloc().is_free(q),
            forall|u: usize|
                #[trigger] old(self)@.contains_key(u) && u != TRAMPOLINE_VPN
                    && old(mem).frame_alloc().is_allocated(old(self)@[u].0) ==> final(mem).frame_alloc().is_free(
                    old(self)@[u].0,
                ),
    {
        let ghost tramp = self@[TRAMPOLINE_VPN as usize].0;
        let ghost end = mem.frame_alloc().end();
        proof {
            self.page_table.lemma_entry_seq();
        }
        while self.page_table.len() > 1
            invariant
                self.wf(end, tramp),
                self.root() == old(self).root(),
                mem.wf(),
                mem.frame_alloc().end() == end,
                mem.frame_alloc().start() == old(mem).frame_alloc().start(),
                mem@ == old(mem)@,
                forall|u: usize| #[trigger] self@.contains_key(u) ==> old(self)@.contains_key(u),
                forall|u: usize| #[trigger] self@.contains_key(u) ==> self@[u] == old(self)@[u],
                forall|u: usize|
                    #[trigger] old(self)@.contains_key(u) && !self@.contains_key(u)
                        && old(mem).frame_alloc().is_allocated(old(self)@[u].0) ==> mem.frame_alloc().is_free(
                        old(self)@[u].0,
                    ),
                forall|q: usize| #[trigger] old(mem).frame_alloc().is_free(q) ==> mem.frame_alloc().is_free(q),
            decreases self@.dom().len(),
        {
            proof {
                self.page_table.lemma_entry_seq();
            }
            let first = self.page_table.entry_at(0);
            let victim = if first.vpn == TRAMPOLINE_VPN {
                self.page_table.entry_at(1)
            } else {
                first
            };
            let ghost mem0 = *mem;
            let ghost pt0 = self@;
            self.page_table.unmap(victim.vpn);
            let _ = mem.dealloc_frame(victim.ppn);
            proof {
                self.page_table.lemma_entry_seq();
                assert forall|u: usize|
                    #[trigger] old(self)@.contains_key(u) && !self@.contains_key(u)
                        && old(mem).frame_alloc().is_allocated(old(self)@[u].0) implies mem.frame_alloc().is_free(
                        old(self)@[u].0,
                    ) by {
                    if pt0.contains_key(u) {
                        assert(u == victim.vpn);
                    } else if old(self)@[u].0 != victim.ppn {
                        assert(mem0.frame_alloc().is_free(old(self)@[u].0));
                    }
                }
            }
        }
        proof {
            self.page_table.lemma_entry_seq();
            let d = self@.dom();
            assert(d.remove(TRAMPOLINE_VPN as usize).len() == 0);
            vstd::set_lib::lemma_set_empty_equivalency_len(d.remove(TRAMPOLINE_VPN as usize));
            assert(d =~= set![TRAMPOLINE_VPN as usize]) by {
                assert forall|u: usize| d.contains(u) implies u == TRAMPOLINE_VPN by {
                    if u != TRAMPOLINE_VPN {
                        assert(d.remove(TRAMPOLINE_VPN as usize).contains(u));
                    }
                }
            }
            assert(self@ =~= Map::<usize, (usize, u8)>::empty().insert(
                TRAMPOLINE_VPN as usize,
                old(self)@[TRAMPOLINE_VPN as usize],
            ));
        }
    }

    /// A copy of the address space `other`: the same pages with the same flags, each on
    /// a fresh frame that holds the same bytes as the frame it copies; the trampoline is shared.
    /// `None`, with nothing changed, when fewer frames are free than `other` has mappings.
    pub fn from_existed_user(mem: &mut PhysMemory, other: &MemorySet) -> (r: Option<MemorySet>)
        requires
            old(mem).wf(),
            other.wf(old(mem).frame_alloc().end(), other@[TRAMPOLINE_VPN as usize].0),
        ensures
            final(mem).wf(),
            final(mem).frame_alloc().end() == old(mem).frame_alloc().end(),
            final(mem).frame_alloc().start() == old(mem).frame_alloc().start(),
            r.is_none() <==> old(mem).frame_alloc().free_count() < other@.dom().len(),
            r.is_none() ==> *final(mem) == *old(mem),
            match r {
                Some(ms) => {
                    &&& ms.wf(final(mem).frame_alloc().end(), other@[TRAMPOLINE_VPN as usize].0)
                    &&& ms@.dom() == other@.dom()
                    &&& old(mem).frame_alloc().is_free(ms.root())
                    &&& !final(mem).frame_alloc().is_free(ms.root())
                    &&& forall|v: usize|
                        #[trigger] ms@.contains_key(v) && v != TRAMPOLINE_VPN ==> {
                            &&& ms@[v].1 == other@[v].1 | PTE_V
                            &&& old(mem).frame_alloc().is_free(ms@[v].0)
                            &&& !final(mem).frame_alloc().is_free(ms@[v].0)
                        }
                    &&& (owns_frames(other@, *old(mem)) ==> forall|v: usize, k: int|
                        #[trigger] ms@.contains_key(v) && v != TRAMPOLINE_VPN && 0 <= k < PAGE_SIZE
                            ==> #[trigger] final(mem)@[pa_of(ms@[v].0 as int, k)] == old(mem)@[pa_of(
                            other@[v].0 as int,
                            k,
                        )])
                },
                None => true,
            },
            forall|q: usize| #[trigger] final(mem).frame_alloc().is_free(q) ==> old(mem).frame_alloc().is_free(q),
            forall|i: int|
                0 <= i < final(mem)@.len() && !old(mem).frame_alloc().is_free((i / PAGE_SIZE as int) as usize)
                    ==> #[trigger] final(mem)@[i] == old(mem)@[i],
    {
        let ghost end = mem.frame_alloc().end();
        let ghost es = other.page_table.entry_seq();
        let ghost h = owns_frames(other@, *mem);
        proof {
            other.page_table.lemma_entry_seq();
        }
        let n = other.page_table.len();
        if mem.free_frames() < n {
            return None;
        }
        let tramp = match other.translate(TRAMPOLINE_VPN) {
            Some(pte) => pte.ppn,
            None => {
                return None;
            },
        };
        let ghost t = choose|j: int| 0 <= j < es.len() && #[trigger] es[j].vpn == TRAMPOLINE_VPN;
        let root = match mem.alloc_frame() {
            Some(p) => p,
            None => {
                return None;
            },
        };
        proof {
            assert forall|i: int|
                0 <= i < mem@.len() && !old(mem).frame_alloc().is_free((i / PAGE_SIZE as int) as usize)
                implies #[trigger] mem@[i] == old(mem)@[i] by {
                if pa_of(root as int, 0) <= i < pa_of(root as int, PAGE_SIZE as int) {
                    lemma_div_in_frame(root as int, i);
                }
            }
        }
        let mut ms = MemorySet::new_bare(root, tramp, mem.frame_alloc_end());
        let mut i: usize = 0;
        while i < n
            invariant
                n == es.len(),
                es == other.page_table.entry_seq(),
                distinct_vpns(es),
                other@ == entries_map(es),
                0 <= t < n,
                es[t].vpn == TRAMPOLINE_VPN,
                other.wf(end, tramp),
                h == owns_frames(other@, *old(mem)),
                i <= n,
                mem.wf(),
                mem.frame_alloc().end() == end,
                mem.frame_alloc().start() == old(mem).frame_alloc().start(),
                mem.frame_alloc().free_count() + (if i <= t { 1int } else { 0int }) >= n - i,
                ms.wf(end, tramp),
                ms.root() == root,
                old(mem).frame_alloc().is_free(root),
                !mem.frame_alloc().is_free(root),
                forall|u: usize|
                    #[trigger] ms@.contains_key(u) <==> (u == TRAMPOLINE_VPN || exists|j: int|
                        0 <= j < i && #[trigger] es[j].vpn == u),
                forall|j: int|
                    0 <= j < i && #[trigger] es[j].vpn != TRAMPOLINE_VPN ==> {
                        &&& ms@[es[j].vpn].1 == es[j].flags | PTE_V
                        &&& old(mem).frame_alloc().is_free(ms@[es[j].vpn].0)
                        &&& !mem.frame_alloc().is_free(ms@[es[j].vpn].0)
                    },
                forall|q: usize| #[trigger] mem.frame_alloc().is_free(q) ==> old(mem).frame_alloc().is_free(q),
                forall|i: int|
                    0 <= i < mem@.len() && !old(mem).frame_alloc().is_free((i / PAGE_SIZE as int) as usize)
                        ==> #[trigger] mem@[i] == old(mem)@[i],
                h ==> forall|j: int, k: int|
                    0 <= j < i && #[trigger] es[j].vpn != TRAMPOLINE_VPN && 0 <= k < PAGE_SIZE
                        ==> #[trigger] mem@[pa_of(ms@[es[j].vpn].0 as int, k)] == old(mem)@[pa_of(
                        es[j].ppn as int,
                        k,
                    )],
            decreases n - i,
        {
            let e = other.page_table.entry_at(i);
            if e.vpn != TRAMPOLINE_VPN {
                proof {
                    lemma_entries_at(es, i as int);
                    assert(other@.contains_key(e.vpn));
                    assert(e.ppn < end);
                    assert(!ms@.contains_key(e.vpn)) by {
                        if ms@.contains_key(e.vpn) {
                            let j = choose|j: int| 0 <= j < i && #[trigger] es[j].vpn == e.vpn;
                            assert(es[j].vpn == es[i as int].vpn);
                        }
                    }
                }
                let ghost mem0 = *mem;
                let ghost ms0 = ms@;
                let p = match mem.alloc_frame() {
                    Some(p) => p,
                    None => {
                        return None;
                    },
                };
                let ghost mem1 = *mem;
                mem.copy_frame(e.ppn, p);
                ms.page_table.map(e.vpn, p, e.flags);
                proof {
                    assert forall|q: usize| #[trigger] mem.frame_alloc().is_free(q) implies old(mem).frame_alloc().is_free(q) by {
                        assert(mem0.frame_alloc().is_free(q));
                    }
                    assert forall|i2: int|
                        0 <= i2 < mem@.len() && !old(mem).frame_alloc().is_free((i2 / PAGE_SIZE as int) as usize)
                        implies #[trigger] mem@[i2] == old(mem)@[i2] by {
                        if pa_of(p as int, 0) <= i2 < pa_of(p as int, PAGE_SIZE as int) {
                            lemma_div_in_frame(p as int, i2);
                        }
                    }
                    assert forall|j: int|
                        0 <= j < i + 1 && #[trigger] es[j].vpn != TRAMPOLINE_VPN implies {
                            &&& ms@[es[j].vpn].1 == es[j].flags | PTE_V
                            &&& old(mem).frame_alloc().is_free(ms@[es[j].vpn].0)
                            &&& !mem.frame_alloc().is_free(ms@[es[j].vpn].0)
                        } by {
                        if j < i {
                            assert(ms0.contains_key(es[j].vpn));
                            assert(es[j].vpn != e.vpn);
                            assert(ms0[es[j].vpn].0 != p);
                        }
                    }
                    assert forall|u: usize|
                        #[trigger] ms@.contains_key(u) <==> (u == TRAMPOLINE_VPN || exists|j: int|
                            0 <= j < i + 1 && #[trigger] es[j].vpn == u) by {
                        if ms0.contains_key(u) && u != TRAMPOLINE_VPN {
                            let j = choose|j: int| 0 <= j < i && #[trigger] es[j].vpn == u;
                            assert(0 <= j < i + 1 && es[j].vpn == u);
                        }
                        if u == e.vpn {
                            assert(es[i as int].vpn == u);
                        }
                        if exists|j: int| 0 <= j < i + 1 && #[trigger] es[j].vpn == u {
                            let j = choose|j: int| 0 <= j < i + 1 && #[trigger] es[j].vpn == u;
                            if j < i {
                                assert(ms0.contains_key(u));
                            }
                        }
                    }
                    if h {
                        assert forall|j: int, k: int|
                            0 <= j < i + 1 && #[trigger] es[j].vpn != TRAMPOLINE_VPN && 0 <= k
                                < PAGE_SIZE implies #[trigger] mem@[pa_of(ms@[es[j].vpn].0 as int, k)]
                            == old(mem)@[pa_of(es[j].ppn as int, k)] by {
                            lemma_frame_bounds(p, k);
                            crate::mm::frame_allocator::lemma_frame_in_bounds(p, end);
                            if j < i {
                                assert(ms0.contains_key(es[j].vpn));
                                assert(es[j].vpn != e.vpn);
                                let f = ms0[es[j].vpn].0;
                                assert(f != p);
                                assert(f < end);
                                lemma_frame_bounds(f, k);
                                crate::mm::frame_allocator::lemma_frame_in_bounds(f, end);
                                lemma_pa_outside_frame(f, p, k);
                                assert(mem0@[pa_of(f as int, k)] == old(mem)@[pa_of(es[j].ppn as int, k)]);
                            } else {
                                assert(j == i);
                                lemma_entries_at(es, j);
                                assert(!old(mem).frame_alloc().is_free(e.ppn));
                                assert(e.ppn != p);
                                lemma_frame_bounds(e.ppn, k);
                                crate::mm::frame_allocator::lemma_frame_in_bounds(e.ppn, end);
                                lemma_pa_outside_frame(e.ppn, p, k);
                                lemma_div_in_frame(e.ppn as int, pa_of(e.ppn as int, k));
                                assert(mem1@[pa_of(e.ppn as int, k)] == old(mem)@[pa_of(e.ppn as int, k)]);
                            }
                        }
                    }
                }
            } else {
                proof {
                    assert forall|u: usize|
                        #[trigger] ms@.contains_key(u) <==> (u == TRAMPOLINE_VPN || exists|j: int|
                            0 <= j < i + 1 && #[trigger] es[j].vpn == u) by {
                        if ms@.contains_key(u) && u != TRAMPOLINE_VPN {
                            let j = choose|j: int| 0 <= j < i && #[trigger] es[j].vpn == u;
                            assert(0 <= j < i + 1 && es[j].vpn == u);
                        }
                        if exists|j: int| 0 <= j < i + 1 && #[trigger] es[j].vpn == u {
                            let j = choose|j: int| 0 <= j < i + 1 && #[trigger] es[j].vpn == u;
                            if j < i {
                                assert(ms@.contains_key(u));
                            }
                        }
                    }
                    assert(i as int == t) by {
                        if i as int != t {
                            assert(es[i as int].vpn == es[t].vpn);
                        }
                    }
                }
            }
            i += 1;
        }
        proof {
            assert forall|u: usize| #[trigger] ms@.contains_key(u) <==> other@.contains_key(u) by {
                if other@.contains_key(u) {
                    let j = choose|j: int| 0 <= j < es.len() && #[trigger] es[j].vpn == u;
                    assert(exists|j: int| 0 <= j < n && #[trigger] es[j].vpn == u);
                }
                if ms@.contains_key(u) && u != TRAMPOLINE_VPN {
                    let j = choose|j: int| 0 <= j < n && #[trigger] es[j].vpn == u;
                    lemma_entries_at(es, j);
                }
            }
            assert(ms@.dom() =~= other@.dom());
            assert forall|v: usize|
                #[trigger] ms@.contains_key(v) && v != TRAMPOLINE_VPN implies {
                    &&& ms@[v].1 == other@[v].1 | PTE_V
                    &&& old(mem).frame_alloc().is_free(ms@[v].0)
                    &&& !mem.frame_alloc().is_free(ms@[v].0)
                } by {
                let j = choose|j: int| 0 <= j < n && #[trigger] es[j].vpn == v;
                lemma_entries_at(es, j);
            }
            if h {
                assert forall|v: usize, k: int|
                    #[trigger] ms@.contains_key(v) && v != TRAMPOLINE_VPN && 0 <= k < PAGE_SIZE
                        implies #[trigger] mem@[pa_of(ms@[v].0 as int, k)] == old(mem)@[pa_of(
                        other@[v].0 as int,
                        k,
                    )] by {
                    let j = choose|j: int| 0 <= j < n && #[trigger] es[j].vpn == v;
                    lemma_entries_at(es, j);
                }
            }
        }
        Some(ms)
    }

    /// Loads a program: one framed area per segment, with the segment's permissions and
    /// the user bit, holding its bytes; then, above the highest segment and one unmapped
    /// guard page, the user stack; then the trap-context page; and the trampoline.
    /// Returns the space, the initial user stack pointer and the entry point; `None`
    /// exactly when the program is not loadable with the free frames (see
    /// [`elf_loadable`]).
    pub fn from_elf(mem: &mut PhysMemory, app: &AppImage, tramp: usize) -> (r: Option<(MemorySet, usize, usize)>)
        requires
            old(mem).wf(),
            tramp < old(mem).frame_alloc().end(),
        ensures
            final(mem).wf(),
            final(mem).frame_alloc().end() == old(mem).frame_alloc().end(),
            final(mem).frame_alloc().start() == old(mem).frame_alloc().start(),
            r.is_some() <==> elf_loadable(app.segments@, old(mem).frame_alloc().free_count()),
            match r {
                Some((ms, sp, entry)) => {
                    &&& ms.wf(final(mem).frame_alloc().end(), tramp)
                    &&& entry == app.entry
                    &&& loaded_image(ms@, app.segments@, sp, tramp)
                    &&& forall|k: int|
                        0 <= k < app.segments@.len() ==> #[trigger] segment_loaded(
                            final(mem)@,
                            ms@,
                            app.segments@[k].start_va,
                            app.segments@[k].mem_size,
                            app.segments@[k].data@,
                        )
                    &&& ms@.contains_key(TRAP_CONTEXT_VPN as usize)
                    &&& ms@[TRAP_CONTEXT_VPN as usize].1 == PERM_R | PERM_W | PTE_V
                    &&& is_aligned(sp as int)
                    &&& sp >= PAGE_SIZE
                    &&& user_mapped(ms@, (vpn_of(sp as int) - 1) as usize)
                    &&& forall|k: int, v: usize|
                        0 <= k < app.segments@.len() && #[trigger] in_segment(app.segments@[k], v)
                            ==> ms@.contains_key(v) && ms@[v].1 == app.segments@[k].perm | PERM_U | PTE_V
                },
                None => true,
            },
    {
        let ghost segs = app.segments@;
        let ghost free0 = old(mem).frame_alloc().free_count();
        let end = mem.frame_alloc_end();
        let root = match mem.alloc_frame() {
            Some(p) => p,
            None => {
                proof {
                    lemma_not_loadable_frames(segs, free0, 0, 1);
                }
                return None;
            },
        };
        let mut ms = MemorySet::new_bare(root, tramp, end);
        let mut max_end_vpn: usize = 0;
        let mut k: usize = 0;
        let nseg = app.segments.len();
        proof {
            assert(segs.take(0) =~= Seq::<MapSegment>::empty());
        }
        while k < nseg
            invariant
                segs == app.segments@,
                nseg == segs.len(),
                k <= nseg,
                mem.wf(),
                mem.frame_alloc().end() == end,
                end == old(mem).frame_alloc().end(),
                mem.frame_alloc().start() == old(mem).frame_alloc().start(),
                free0 == old(mem).frame_alloc().free_count(),
                mem.frame_alloc().free_count() + 1 + segs_pages(segs.take(k as int)) == free0,
                ms.wf(end, tramp),
                ms.root() == root,
                max_end_vpn == segs_end(segs.take(k as int)),
                forall|j: int| 0 <= j < k ==> seg_ok(#[trigger] segs[j]),
                segments_loaded(*mem, ms@, segs, k as int),
                segs_disjoint(segs.take(k as int)),
                forall|v: usize|
                    #[trigger] ms@.contains_key(v) <==> (v == TRAMPOLINE_VPN || exists|j: int|
                        0 <= j < k && #[trigger] in_segment(segs[j], v)),
                forall|k2: int, v: usize|
                    0 <= k2 < k && #[trigger] in_segment(segs[k2], v) ==> ms@.contains_key(v)
                        && ms@[v].1 == segs[k2].perm | PERM_U | PTE_V,
                max_end_vpn <= TRAMPOLINE_VPN,
            decreases nseg - k,
        {
            let seg = &app.segments[k];
            proof {
                lemma_take_step(segs, k as int);
            }
            if seg.data.len() > seg.mem_size || seg.start_va > usize::MAX - seg.mem_size {
                proof {
                    assert(!seg_ok(segs[k as int]));
                }
                ms.recycle_data_pages(mem);
                let _ = mem.dealloc_frame(root);
                return None;
            }
            let seg_end = seg.start_va + seg.mem_size;
            let ghost ms0 = ms@;
            let ghost mem0 = *mem;
            let ghost freek = mem.frame_alloc().free_count();
            let perm = seg.perm | PERM_U;
            if ms.insert_framed_area(mem, seg.start_va, seg_end, perm) != 0 {
                proof {
                    let sv = vpn_of(seg.start_va as int);
                    let ev = vpn_ceil(seg_end as int);
                    if !is_aligned(seg.start_va as int) || ev <= sv {
                        assert(!seg_ok(segs[k as int]));
                    } else if exists|v: usize| sv <= v < ev && #[trigger] ms0.contains_key(v) {
                        let v = choose|v: usize| sv <= v < ev && #[trigger] ms0.contains_key(v);
                        assert(in_segment(segs[k as int], v));
                        if v == TRAMPOLINE_VPN {
                            lemma_segs_end_ge(segs, k as int);
                        } else {
                            let j = choose|j: int| 0 <= j < k && #[trigger] in_segment(segs[j], v);
                            assert(!(seg_end_vpn(segs[j]) <= seg_start_vpn(segs[k as int]) || seg_end_vpn(segs[k as int])
                                <= seg_start_vpn(segs[j])));
                        }
                    } else {
                        lemma_not_loadable_frames(segs, free0, k + 1, 1);
                    }
                }
                ms.recycle_data_pages(mem);
                let _ = mem.dealloc_frame(root);
                return None;
            }
            let ghost mem1 = *mem;
            proof {
                assert(seg_ok(segs[k as int]));
                lemma_insert_keeps_loaded(
                    ms0,
                    ms@,
                    mem0,
                    mem1,
                    vpn_of(seg.start_va as int) as usize,
                    vpn_ceil(seg_end as int) as usize,
                    perm,
                    segs,
                    k as int,
                );
                assert forall|i: int| 0 <= i < seg.data@.len() implies #[trigger] crate::mm::translate::can_access(
                    ms@,
                    seg.start_va + i,
                    0,
                ) by {
                    lemma_in_segment_of(*seg, i);
                    let v = vpn_of(seg.start_va + i) as usize;
                    assert(ms@.contains_key(v));
                    let f = ms@[v].1;
                    assert(f & 0u8 == 0u8) by (bit_vector);
                }
            }
            let written = crate::mm::translate::translated_write(mem, &ms, seg.start_va, &seg.data, 0);
            proof {
                assert(written);
                lemma_write_segment(ms0, ms@, mem0, mem1, *mem, perm, segs, k as int);
            }
            let e = ceil(seg_end);
            proof {
                assert(vpn_ceil(seg_end as int) <= TRAMPOLINE_VPN + 1) by {
                    assert(seg_end <= usize::MAX);
                }
            }
            if e > max_end_vpn {
                max_end_vpn = e;
            }
            if max_end_vpn > TRAMPOLINE_VPN {
                proof {
                    lemma_segs_end_prefix(segs, k + 1);
                }
                ms.recycle_data_pages(mem);
                let _ = mem.dealloc_frame(root);
                return None;
            }
            proof {
                let t = segs.take(k + 1);
                assert forall|k2: int, v: usize|
                    0 <= k2 < k + 1 && #[trigger] in_segment(segs[k2], v) implies ms@.contains_key(v)
                        && ms@[v].1 == segs[k2].perm | PERM_U | PTE_V by {
                    if k2 < k {
                        assert(ms0.contains_key(v));
                    }
                }
                assert forall|v: usize|
                    #[trigger] ms@.contains_key(v) <==> (v == TRAMPOLINE_VPN || exists|j: int|
                        0 <= j < k + 1 && #[trigger] in_segment(segs[j], v)) by {
                    if ms@.contains_key(v) && !ms0.contains_key(v) {
                        assert(in_segment(segs[k as int], v));
                    }
                    if exists|j: int| 0 <= j < k + 1 && #[trigger] in_segment(segs[j], v) {
                        let j = choose|j: int| 0 <= j < k + 1 && #[trigger] in_segment(segs[j], v);
                        if j < k {
                            assert(ms0.contains_key(v));
                        }
                    }
                }
                assert(segs_disjoint(t)) by {
                    assert forall|a: int, b: int| 0 <= a < b < t.len() implies seg_end_vpn(#[trigger] t[a])
                        <= seg_start_vpn(#[trigger] t[b]) || seg_end_vpn(t[b]) <= seg_start_vpn(t[a]) by {
                        if b < k {
                            assert(segs.take(k as int)[a] == t[a] && segs.take(k as int)[b] == t[b]);
                        } else {
                            if !(seg_end_vpn(t[a]) <= seg_start_vpn(t[b]) || seg_end_vpn(t[b]) <= seg_start_vpn(t[a])) {
                                let v = (if seg_start_vpn(t[a]) < seg_start_vpn(t[b]) { seg_start_vpn(t[b]) } else { seg_start_vpn(t[a]) }) as usize;
                                assert(in_segment(segs[a], v));
                                assert(ms0.contains_key(v));
                                assert(in_segment(segs[k as int], v));
                            }
                        }
                    }
                }
            }
            k += 1;
        }
        proof {
            assert(segs.take(nseg as int) =~= segs);
        }
        let ghost ms_l = ms@;
        if max_end_vpn >= TRAMPOLINE_VPN - 4 {
            ms.recycle_data_pages(mem);
            let _ = mem.dealloc_frame(root);
            return None;
        }
        let bottom = (max_end_vpn + 1) * PAGE_SIZE;
        let top = bottom + USER_STACK_SIZE;
        proof {
            lemma_stack_pages(max_end_vpn as int);
            assert forall|v: usize| max_end_vpn + 1 <= v < max_end_vpn + 3 implies !#[trigger] ms_l.contains_key(v) by {
                if ms_l.contains_key(v) && v != TRAMPOLINE_VPN {
                    let j = choose|j: int| 0 <= j < nseg && #[trigger] in_segment(segs[j], v);
                    lemma_segs_end_ge(segs, j);
                }
            }
        }
        let ghost mem_l = *mem;
        if ms.insert_framed_area(mem, bottom, top, PERM_R | PERM_W | PERM_U) != 0 {
            proof {
                lemma_not_loadable_frames(segs, free0, nseg as int, 3);
            }
            ms.recycle_data_pages(mem);
            let _ = mem.dealloc_frame(root);
            return None;
        }
        let ghost ms1 = ms@;
        let ghost mem_s = *mem;
        proof {
            lemma_insert_keeps_loaded(
                ms_l,
                ms1,
                mem_l,
                mem_s,
                (max_end_vpn + 1) as usize,
                (max_end_vpn + 3) as usize,
                PERM_R | PERM_W | PERM_U,
                segs,
                nseg as int,
            );
            lemma_trap_context_page();
            assert(!ms1.contains_key(TRAP_CONTEXT_VPN as usize)) by {
                if ms_l.contains_key(TRAP_CONTEXT_VPN as usize) {
                    let j = choose|j: int| 0 <= j < nseg && #[trigger] in_segment(segs[j], TRAP_CONTEXT_VPN as usize);
                    lemma_segs_end_ge(segs, j);
                }
            }
        }
        if ms.insert_framed_area(mem, TRAP_CONTEXT, TRAMPOLINE, PERM_R | PERM_W) != 0 {
            proof {
                lemma_not_loadable_frames(segs, free0, nseg as int, 4);
            }
            ms.recycle_data_pages(mem);
            let _ = mem.dealloc_frame(root);
            return None;
        }
        proof {
            lemma_insert_keeps_loaded(
                ms1,
                ms@,
                mem_s,
                *mem,
                TRAP_CONTEXT_VPN as usize,
                TRAMPOLINE_VPN as usize,
                PERM_R | PERM_W,
                segs,
                nseg as int,
            );
            assert forall|k2: int| 0 <= k2 < app.segments@.len() implies #[trigger] segment_loaded(
                mem@,
                ms@,
                app.segments@[k2].start_va,
                app.segments@[k2].mem_size,
                app.segments@[k2].data@,
            ) by {}
            lemma_user_bit(PERM_R | PERM_W);
            assert forall|k2: int, v: usize|
                0 <= k2 < app.segments@.len() && #[trigger] in_segment(app.segments@[k2], v)
                implies ms@.contains_key(v) && ms@[v].1 == app.segments@[k2].perm | PERM_U
                | PTE_V by {
                assert(ms_l.contains_key(v));
                assert(ms1.contains_key(v));
            }
            assert(vpn_of(top as int) - 1 == max_end_vpn + 2);
            assert(ms1.contains_key((max_end_vpn + 2) as usize));
            assert(segs_disjoint(segs));
            assert(elf_loadable(segs, free0));
            assert forall|v: usize| #[trigger] ms@.contains_key(v) <==> (v == TRAMPOLINE_VPN || v == TRAP_CONTEXT_VPN
                || (vpn_of(top as int) - 2 <= v < vpn_of(top as int)) || exists|j: int|
                0 <= j < segs.len() && #[trigger] in_segment(segs[j], v)) by {
                if exists|j: int| 0 <= j < segs.len() && #[trigger] in_segment(segs[j], v) {
                    assert(ms_l.contains_key(v));
                    assert(ms1.contains_key(v));
                }
                if v == TRAMPOLINE_VPN {
                    assert(ms_l.contains_key(v));
                    assert(ms1.contains_key(v));
                }
            }
            assert forall|v: usize| vpn_of(top as int) - 2 <= v < vpn_of(top as int) implies #[trigger] ms@[v].1
                == (PERM_R | PERM_W | PERM_U) | PTE_V by {
                assert(ms1.contains_key(v));
            }
            assert(ms@[TRAMPOLINE_VPN as usize] == (tramp, trampoline_flags()));
        }
        Some((ms, top, app.entry))
    }
}

/// A loadable part of a program: `mem_size` bytes from the page-aligned `start_va`
/// on, with permissions `perm` (any of `PERM_R`, `PERM_W`, `PERM_X`), of which the
/// first ones are `data` and the rest are zero.
pub struct MapSegment {
    pub start_va: usize,
    pub mem_size: usize,
    pub perm: u8,
    pub data: Vec<u8>,
}

/// Whether page `v` belongs to the segment `seg`.
pub open spec fn in_segment(seg: MapSegment, v: usize) -> bool {
    vpn_of(seg.start_va as int) <= v < vpn_ceil(seg.start_va + seg.mem_size)
}

/// First page of `seg`.
pub open spec fn seg_start_vpn(seg: MapSegment) -> int {
    vpn_of(seg.start_va as int)
}

/// First page above `seg`.
pub open spec fn seg_end_vpn(seg: MapSegment) -> int {
    vpn_ceil(seg.start_va + seg.mem_size)
}

/// Whether `seg` can be loaded alone: its bytes fit, it does not run past the address
/// space, it starts on a page, and it holds at least one page.
pub open spec fn seg_ok(seg: MapSegment) -> bool {
    &&& seg.data@.len() <= seg.mem_size
    &&& seg.start_va + seg.mem_size <= usize::MAX
    &&& is_aligned(seg.start_va as int)
    &&& seg_start_vpn(seg) < seg_end_vpn(seg)
}

/// The highest first-page-above of the segments, 0 when there are none.
pub open spec fn segs_end(segs: Seq<MapSegment>) -> int
    decreases segs.len(),
{
    if segs.len() == 0 {
        0
    } else {
        let a = segs_end(segs.drop_last());
        let b = seg_end_vpn(segs.last());
        if a > b { a } else { b }
    }
}

/// The number of pages of the segments together.
pub open spec fn segs_pages(segs: Seq<MapSegment>) -> int
    decreases segs.len(),
{
    if segs.len() == 0 {
        0
    } else {
        segs_pages(segs.drop_last()) + seg_end_vpn(segs.last()) - seg_start_vpn(segs.last())
    }
}

/// Whether no two of the segments share a page.
pub open spec fn segs_disjoint(segs: Seq<MapSegment>) -> bool {
    forall|a: int, b: int|
        0 <= a < b < segs.len() ==> seg_end_vpn(#[trigger] segs[a]) <= seg_start_vpn(#[trigger] segs[b])
            || seg_end_vpn(segs[b]) <= seg_start_vpn(segs[a])
}

/// Whether a program with segments `segs` can be loaded when `free` frames are free:
/// every segment can be loaded alone, no two share a page, they end low enough to
/// leave room for the guard page, the two stack pages, the trap-context page and the
/// trampoline, and there is a frame for each page plus the root, the stack and the
/// trap context.
pub open spec fn elf_loadable(segs: Seq<MapSegment>, free: nat) -> bool {
    &&& forall|k: int| 0 <= k < segs.len() ==> seg_ok(#[trigger] segs[k])
    &&& segs_disjoint(segs)
    &&& segs_end(segs) < TRAMPOLINE_VPN - 4
    &&& free >= segs_pages(segs) + 4
}

/// Whether `pt` is the address space that loading segments `segs` builds with user
/// stack pointer `sp`: the trampoline, the trap-context page, the two stack pages
/// just below `sp` (which lies three pages above the highest segment), and the pages
/// of the segments, each with its flags; nothing else.
pub open spec fn loaded_image(pt: Map<usize, (usize, u8)>, segs: Seq<MapSegment>, sp: usize, tramp: usize) -> bool {
    let top = vpn_of(sp as int);
    &&& sp as int == (segs_end(segs) + 3) * PAGE_SIZE
    &&& forall|v: usize|
        #[trigger] pt.contains_key(v) <==> (v == TRAMPOLINE_VPN || v == TRAP_CONTEXT_VPN || (top - 2 <= v < top)
            || exists|k: int| 0 <= k < segs.len() && #[trigger] in_segment(segs[k], v))
    &&& pt[TRAMPOLINE_VPN as usize] == (tramp, trampoline_flags())
    &&& pt[TRAP_CONTEXT_VPN as usize].1 == PERM_R | PERM_W | PTE_V
    &&& forall|v: usize| top - 2 <= v < top ==> #[trigger] pt[v].1 == (PERM_R | PERM_W | PERM_U) | PTE_V
    &&& forall|k: int, v: usize|
        0 <= k < segs.len() && #[trigger] in_segment(segs[k], v) ==> pt[v].1 == segs[k].perm | PERM_U | PTE_V
}

/// Every segment `j < n` holds its bytes, on pages whose frames are handed out.
pub open spec fn segments_loaded(m: PhysMemory, pt: Map<usize, (usize, u8)>, segs: Seq<MapSegment>, n: int) -> bool {
    &&& forall|j: int|
        0 <= j < n ==> #[trigger] segment_loaded(m@, pt, segs[j].start_va, segs[j].mem_size, segs[j].data@)
    &&& forall|j: int, v: usize|
        0 <= j < n && #[trigger] in_segment(segs[j], v) ==> pt.contains_key(v) && !m.frame_alloc().is_free(pt[v].0)
}

proof fn lemma_pa_in_frame(pt: Map<usize, (usize, u8)>, m: PhysMemory, va: int)
    requires
        m.wf(),
        0 <= va,
        pt.contains_key(vpn_of(va) as usize),
        pt[vpn_of(va) as usize].0 < m.frame_alloc().end(),
    ensures
        0 <= translated_pa(pt, va) < m@.len(),
        translated_pa(pt, va) / 4096 == pt[vpn_of(va) as usize].0,
{
    let f = pt[vpn_of(va) as usize].0;
    crate::mm::frame_allocator::lemma_frame_in_bounds(f, m.frame_alloc().end());
    assert((f * 4096 + va % 4096) / 4096 == f) by (nonlinear_arith)
        requires
            0 <= va % 4096 < 4096,
    ;
}

/// Inserting an area leaves loaded segments as they are.
proof fn lemma_insert_keeps_loaded(
    pt0: Map<usize, (usize, u8)>,
    pt1: Map<usize, (usize, u8)>,
    m0: PhysMemory,
    m1: PhysMemory,
    s: usize,
    e: usize,
    perm: u8,
    segs: Seq<MapSegment>,
    n: int,
)
    requires
        area_inserted(pt0, pt1, m0, m1, s, e, perm),
        m0.wf(),
        m1.frame_alloc().end() == m0.frame_alloc().end(),
        forall|v: usize| #[trigger] pt0.contains_key(v) ==> pt0[v].0 < m0.frame_alloc().end(),
        segments_loaded(m0, pt0, segs, n),
        forall|j: int| 0 <= j < n ==> seg_ok(#[trigger] segs[j]),
    ensures
        segments_loaded(m1, pt1, segs, n),
{
    assert forall|j: int| 0 <= j < n implies #[trigger] segment_loaded(
        m1@,
        pt1,
        segs[j].start_va,
        segs[j].mem_size,
        segs[j].data@,
    ) by {
        let sg = segs[j];
        assert(seg_ok(sg));
        assert(segment_loaded(m0@, pt0, sg.start_va, sg.mem_size, sg.data@));
        assert forall|i: int| 0 <= i < sg.mem_size implies #[trigger] m1@[translated_pa(pt1, sg.start_va + i)]
            == if i < sg.data@.len() { sg.data@[i] } else { 0u8 } by {
            let va = sg.start_va + i;
            let v = vpn_of(va) as usize;
            lemma_in_segment_of(sg, i);
            assert(in_segment(segs[j], v));
            assert(pt0.contains_key(v));
            assert(pt1[v] == pt0[v]);
            lemma_pa_in_frame(pt0, m0, va);
            assert(m0@[translated_pa(pt0, sg.start_va + i)] == if i < sg.data@.len() { sg.data@[i] } else { 0u8 });
        }
    }
    assert forall|j: int, v: usize| 0 <= j < n && #[trigger] in_segment(segs[j], v) implies pt1.contains_key(v)
        && !m1.frame_alloc().is_free(pt1[v].0) by {
        assert(pt0.contains_key(v));
    }
}

/// Writing a freshly mapped segment's data loads it, and keeps the segments before.
proof fn lemma_write_segment(
    pt0: Map<usize, (usize, u8)>,
    pt1: Map<usize, (usize, u8)>,
    m0: PhysMemory,
    m1: PhysMemory,
    m2: PhysMemory,
    perm: u8,
    segs: Seq<MapSegment>,
    k: int,
)
    requires
        0 <= k < segs.len(),
        forall|j: int| 0 <= j <= k ==> seg_ok(#[trigger] segs[j]),
        area_inserted(
            pt0,
            pt1,
            m0,
            m1,
            vpn_of(segs[k].start_va as int) as usize,
            vpn_ceil(segs[k].start_va + segs[k].mem_size) as usize,
            perm,
        ),
        m1.wf(),
        forall|v: usize| #[trigger] pt1.contains_key(v) ==> pt1[v].0 < m1.frame_alloc().end(),
        segments_loaded(m0, pt0, segs, k),
        segments_loaded(m1, pt1, segs, k),
        m2@ == apply_writes(m1@, pt1, segs[k].start_va as int, segs[k].data@),
        m2.frame_alloc() == m1.frame_alloc(),
    ensures
        segments_loaded(m2, pt1, segs, k + 1),
{
    let sg = segs[k];
    let st = sg.start_va as int;
    let data = sg.data@;
    assert(seg_ok(sg));
    assert forall|i: int| 0 <= i < sg.mem_size implies {
        let v = vpn_of(st + i) as usize;
        &&& in_segment(sg, v)
        &&& pt1.contains_key(v)
        &&& 0 <= #[trigger] translated_pa(pt1, st + i) < m1@.len()
        &&& translated_pa(pt1, st + i) / 4096 == pt1[v].0
        &&& m0.frame_alloc().is_free(pt1[v].0)
    } by {
        lemma_in_segment_of(sg, i);
        let v = vpn_of(st + i) as usize;
        assert(pt1.contains_key(v));
        lemma_pa_in_frame(pt1, m1, st + i);
    }
    assert forall|i: int, i2: int| 0 <= i < sg.mem_size && 0 <= i2 < sg.mem_size && i != i2 implies #[trigger] translated_pa(
        pt1,
        st + i,
    ) != #[trigger] translated_pa(pt1, st + i2) by {
        lemma_in_segment_of(sg, i);
        lemma_in_segment_of(sg, i2);
        crate::mm::translate::lemma_pa_injective(pt1, st + i, st + i2);
    }
    assert forall|i: int| 0 <= i < data.len() implies 0 <= #[trigger] translated_pa(pt1, st + i) < m1@.len() by {
        assert(i < sg.mem_size);
    }
    assert forall|j: int| 0 <= j < k + 1 implies #[trigger] segment_loaded(
        m2@,
        pt1,
        segs[j].start_va,
        segs[j].mem_size,
        segs[j].data@,
    ) by {
        let sj = segs[j];
        assert(seg_ok(sj));
        if j < k {
            assert(segment_loaded(m1@, pt1, sj.start_va, sj.mem_size, sj.data@));
            assert forall|i: int| 0 <= i < sj.mem_size implies #[trigger] m2@[translated_pa(pt1, sj.start_va + i)]
                == if i < sj.data@.len() { sj.data@[i] } else { 0u8 } by {
                let x = translated_pa(pt1, sj.start_va + i);
                let vj = vpn_of(sj.start_va + i) as usize;
                lemma_in_segment_of(sj, i);
                assert(in_segment(segs[j], vj));
                assert(pt0.contains_key(vj) && !m0.frame_alloc().is_free(pt0[vj].0));
                assert(pt1[vj] == pt0[vj]);
                lemma_pa_in_frame(pt1, m1, sj.start_va + i);
                assert forall|i2: int| 0 <= i2 < data.len() implies #[trigger] translated_pa(pt1, st + i2) != x by {
                    let u = vpn_of(st + i2) as usize;
                    assert(i2 < sg.mem_size);
                    assert(m0.frame_alloc().is_free(pt1[u].0));
                    assert(pt1[u].0 != pt1[vj].0);
                }
                crate::mm::translate::lemma_apply_writes_other(m1@, pt1, st, data, x);
            }
        } else {
            assert forall|i: int| 0 <= i < sg.mem_size implies #[trigger] m2@[translated_pa(pt1, sg.start_va + i)]
                == if i < data.len() { data[i] } else { 0u8 } by {
                if i < data.len() {
                    crate::mm::translate::lemma_apply_writes_at(m1@, pt1, st, data, i);
                } else {
                    let x = translated_pa(pt1, st + i);
                    let u = vpn_of(st + i) as usize;
                    assert(pt1.contains_key(u));
                    assert(m1@[pa_of(pt1[u].0 as int, (st + i) % 4096)] == 0);
                    assert forall|i2: int| 0 <= i2 < data.len() implies #[trigger] translated_pa(pt1, st + i2) != x by {
                        assert(i2 < sg.mem_size);
                    }
                    crate::mm::translate::lemma_apply_writes_other(m1@, pt1, st, data, x);
                }
            }
        }
    }
    assert forall|j: int, v: usize| 0 <= j < k + 1 && #[trigger] in_segment(segs[j], v) implies pt1.contains_key(v)
        && !m2.frame_alloc().is_free(pt1[v].0) by {
    }
}

proof fn lemma_in_segment_of(sg: MapSegment, i: int)
    requires
        seg_ok(sg),
        0 <= i < sg.mem_size,
    ensures
        in_segment(sg, vpn_of(sg.start_va + i) as usize),
        0 <= vpn_of(sg.start_va + i),
{
    let a = sg.start_va as int;
    let z = sg.mem_size as int;
    assert(a / 4096 <= (a + i) / 4096) by (nonlinear_arith)
        requires
            0 <= i,
            0 <= a,
    ;
    assert((a + i) / 4096 < (a + z + 4095) / 4096) by (nonlinear_arith)
        requires
            i < z,
            0 <= a,
            0 <= i,
    ;
}

proof fn lemma_take_step(segs: Seq<MapSegment>, k: int)
    requires
        0 <= k < segs.len(),
    ensures
        segs.take(k + 1).drop_last() == segs.take(k),
        segs.take(k + 1).last() == segs[k],
        segs_end(segs.take(k + 1)) == if segs_end(segs.take(k)) > seg_end_vpn(segs[k]) {
            segs_end(segs.take(k))
        } else {
            seg_end_vpn(segs[k])
        },
        segs_pages(segs.take(k + 1)) == segs_pages(segs.take(k)) + seg_end_vpn(segs[k]) - seg_start_vpn(segs[k]),
{
    assert(segs.take(k + 1).drop_last() =~= segs.take(k));
}

proof fn lemma_segs_end_ge(segs: Seq<MapSegment>, j: int)
    requires
        0 <= j < segs.len(),
    ensures
        segs_end(segs) >= seg_end_vpn(segs[j]),
    decreases segs.len(),
{
    if j < segs.len() - 1 {
        lemma_segs_end_ge(segs.drop_last(), j);
    }
}

proof fn lemma_segs_end_prefix(segs: Seq<MapSegment>, k: int)
    requires
        0 <= k <= segs.len(),
    ensures
        segs_end(segs.take(k)) <= segs_end(segs),
    decreases segs.len(),
{
    if k < segs.len() {
        assert(segs.drop_last().take(k) =~= segs.take(k));
        lemma_segs_end_prefix(segs.drop_last(), k);
    } else {
        assert(segs.take(k) =~= segs);
    }
}

proof fn lemma_segs_pages_prefix(segs: Seq<MapSegment>, k: int)
    requires
        0 <= k <= segs.len(),
        forall|j: int| 0 <= j < segs.len() ==> seg_ok(#[trigger] segs[j]),
    ensures
        segs_pages(segs.take(k)) <= segs_pages(segs),
        0 <= segs_pages(segs),
    decreases segs.len(),
{
    if segs.len() > 0 {
        let d = segs.drop_last();
        assert forall|j: int| 0 <= j < d.len() implies seg_ok(#[trigger] d[j]) by {
            assert(d[j] == segs[j]);
        }
        assert(seg_ok(segs[segs.len() - 1]));
        if k < segs.len() {
            assert(d.take(k) =~= segs.take(k));
            lemma_segs_pages_prefix(d, k);
        } else {
            assert(segs.take(k) =~= segs);
            lemma_segs_pages_prefix(d, 0);
        }
    } else {
        assert(segs.take(k) =~= segs);
    }
}

proof fn lemma_not_loadable_frames(segs: Seq<MapSegment>, free: nat, k: int, extra: int)
    requires
        0 <= k <= segs.len(),
        extra <= 4,
        free < segs_pages(segs.take(k)) + extra,
    ensures
        !elf_loadable(segs, free),
{
    if elf_loadable(segs, free) {
        lemma_segs_pages_prefix(segs, k);
    }
}

proof fn lemma_stack_pages(m: int)
    requires
        0 <= m < TRAMPOLINE_VPN - 4,
    ensures
        (m + 1) * PAGE_SIZE + USER_STACK_SIZE <= usize::MAX,
        is_aligned((m + 1) * PAGE_SIZE),
        vpn_of((m + 1) * PAGE_SIZE) == m + 1,
        vpn_ceil((m + 1) * PAGE_SIZE + USER_STACK_SIZE) == m + 3,
        vpn_of((m + 1) * PAGE_SIZE + USER_STACK_SIZE) == m + 3,
{
    assert((m + 1) * 4096 + 8192 <= (TRAMPOLINE_VPN as int) * 4096) by (nonlinear_arith)
        requires
            m < TRAMPOLINE_VPN - 4,
    ;
    assert((TRAMPOLINE_VPN as int) * 4096 <= usize::MAX) by (nonlinear_arith)
        requires
            TRAMPOLINE_VPN as int == usize::MAX as int / 4096,
    ;
    assert(((m + 1) * 4096) % 4096 == 0) by (nonlinear_arith);
    assert(((m + 1) * 4096) / 4096 == m + 1) by (nonlinear_arith);
    assert(((m + 1) * 4096 + 8192 + 4095) / 4096 == m + 3) by (nonlinear_arith);
    assert(((m + 1) * 4096 + 8192) / 4096 == m + 3) by (nonlinear_arith);
}

proof fn lemma_trap_context_page()
    ensures
        is_aligned(TRAP_CONTEXT as int),
        vpn_of(TRAP_CONTEXT as int) == TRAP_CONTEXT_VPN,
        vpn_ceil(TRAMPOLINE as int) == TRAMPOLINE_VPN,
        TRAMPOLINE_VPN >= 5,
{
    assert(usize::MAX == 0xffff_ffff || usize::MAX == 0xffff_ffff_ffff_ffff);
}

/// A program as the loader sees it: its name, segments and entry point.
pub struct AppImage {
    pub name: Vec<u8>,
    pub segments: Vec<MapSegment>,
    pub entry: usize,
}

/// Every page of `pt` but the trampoline is backed by a frame that `mem` has handed out.
pub open spec fn owns_frames(pt: Map<usize, (usize, u8)>, mem: PhysMemory) -> bool {
    forall|v: usize|
        #[trigger] pt.contains_key(v) && v != TRAMPOLINE_VPN ==> mem.frame_alloc().is_allocated(pt[v].0)
}

proof fn lemma_entries_at(es: Seq<PageTableEntry>, i: int)
    requires
        distinct_vpns(es),
        0 <= i < es.len(),
    ensures
        entries_map(es).contains_key(es[i].vpn),
        entries_map(es)[es[i].vpn] == (es[i].ppn, es[i].flags),
{
    assert(has_vpn(es, es[i].vpn));
    let j = choose|j: int| 0 <= j < es.len() && #[trigger] es[j].vpn == es[i].vpn;
    assert(j == i);
}

/// When inserting `[start_va, end_va)` fails: an unaligned start, an empty range,
/// a page already mapped, or fewer free frames than pages.
pub open spec fn insert_fails(pt: Map<usize, (usize, u8)>, free: nat, start_va: usize, end_va: usize) -> bool {
    let s = vpn_of(start_va as int);
    let e = vpn_ceil(end_va as int);
    ||| !is_aligned(start_va as int)
    ||| e <= s
    ||| (exists|v: usize| s <= v < e && #[trigger] pt.contains_key(v))
    ||| free < e - s
}

/// `pt1` is `pt0` with the pages `[s, e)` added, each on its own frame that was free
/// in `m0` and is zeroed in `m1`, with flags `perm` and the valid bit; no other byte
/// of memory changed, and no other frame was taken.
pub open spec fn area_inserted(
    pt0: Map<usize, (usize, u8)>,
    pt1: Map<usize, (usize, u8)>,
    m0: PhysMemory,
    m1: PhysMemory,
    s: usize,
    e: usize,
    perm: u8,
) -> bool {
    &&& forall|u: usize| #[trigger] pt1.contains_key(u) <==> (pt0.contains_key(u) || (s <= u < e))
    &&& forall|u: usize| #[trigger] pt0.contains_key(u) ==> pt1[u] == pt0[u]
    &&& forall|u: usize| s <= u < e ==> (#[trigger] pt1[u]).1 == perm | PTE_V
    &&& forall|u: usize| s <= u < e ==> m0.frame_alloc().is_free((#[trigger] pt1[u]).0)
    &&& forall|u: usize| s <= u < e ==> !m1.frame_alloc().is_free((#[trigger] pt1[u]).0)
    &&& forall|u1: usize, u2: usize|
        s <= u1 < e && s <= u2 < e && u1 != u2 ==> (#[trigger] pt1[u1]).0 != (#[trigger] pt1[u2]).0
    &&& forall|q: usize| #[trigger] m1.frame_alloc().is_free(q) ==> m0.frame_alloc().is_free(q)
    &&& forall|q: usize|
        m0.frame_alloc().is_free(q) && !#[trigger] m1.frame_alloc().is_free(q) ==> exists|u: usize|
            s <= u < e && #[trigger] pt1[u].0 == q
    &&& m1.frame_alloc().free_count() == m0.frame_alloc().free_count() - (e - s)
    &&& forall|u: usize, k: int|
        s <= u < e && 0 <= k < PAGE_SIZE ==> #[trigger] m1@[pa_of((#[trigger] pt1[u]).0 as int, k)] == 0
    &&& forall|i: int|
        0 <= i < m1@.len() && !m0.frame_alloc().is_free((i / PAGE_SIZE as int) as usize) ==> #[trigger] m1@[i]
            == m0@[i]
    &&& m1@.len() == m0@.len()
}

/// When removing `[start_va, end_va)` fails: an unaligned start, or a page of the
/// range not mapped for user mode.
pub open spec fn remove_fails(pt: Map<usize, (usize, u8)>, start_va: usize, end_va: usize) -> bool {
    let s = vpn_of(start_va as int);
    let e = vpn_ceil(end_va as int);
    ||| !is_aligned(start_va as int)
    ||| (exists|v: usize| s <= v < e && !#[trigger] user_mapped(pt, v))
}

/// `pt1` is `pt0` without the pages `[s, e)`; memory holds the same bytes; the frames
/// of those pages that were handed out are free again, and no other frame was freed.
pub open spec fn area_removed(
    pt0: Map<usize, (usize, u8)>,
    pt1: Map<usize, (usize, u8)>,
    m0: PhysMemory,
    m1: PhysMemory,
    s: usize,
    e: usize,
) -> bool {
    &&& forall|u: usize| #[trigger] pt1.contains_key(u) <==> (pt0.contains_key(u) && !(s <= u < e))
    &&& forall|u: usize| #[trigger] pt1.contains_key(u) ==> pt1[u] == pt0[u]
    &&& m1@ == m0@
    &&& forall|u: usize|
        s <= u < e && m0.frame_alloc().is_allocated(#[trigger] pt0[u].0) ==> m1.frame_alloc().is_free(pt0[u].0)
    &&& forall|q: usize| #[trigger] m0.frame_alloc().is_free(q) ==> m1.frame_alloc().is_free(q)
    &&& forall|q: usize|
        #[trigger] m1.frame_alloc().is_free(q) && !m0.frame_alloc().is_free(q) ==> exists|u: usize|
            s <= u < e && #[trigger] pt0[u].0 == q
}

/// Two areas that one after the other were inserted successfully into an address
/// space neither share a page nor a frame.
pub proof fn lemma_inserted_areas_disjoint(
    pt0: Map<usize, (usize, u8)>,
    pt1: Map<usize, (usize, u8)>,
    pt2: Map<usize, (usize, u8)>,
    m0: PhysMemory,
    m1: PhysMemory,
    m2: PhysMemory,
    s1: usize,
    e1: usize,
    perm_a: u8,
    s2: usize,
    e2: usize,
    perm_b: u8,
)
    requires
        area_inserted(pt0, pt1, m0, m1, s1, e1, perm_a),
        forall|v: usize| s2 <= v < e2 ==> !#[trigger] pt1.contains_key(v),
        area_inserted(pt1, pt2, m1, m2, s2, e2, perm_b),
    ensures
        e1 <= s1 || e2 <= s2 || e1 <= s2 || e2 <= s1,
        forall|v1: usize, v2: usize|
            s1 <= v1 < e1 && s2 <= v2 < e2 ==> #[trigger] pt2[v1].0 != #[trigger] pt2[v2].0,
{
    if !(e1 <= s1 || e2 <= s2 || e1 <= s2 || e2 <= s1) {
        let v = if s1 < s2 { s2 } else { s1 };
        assert(pt1.contains_key(v));
    }
    assert forall|v1: usize, v2: usize| s1 <= v1 < e1 && s2 <= v2 < e2 implies #[trigger] pt2[v1].0
        != #[trigger] pt2[v2].0 by {
        assert(pt1.contains_key(v1));
        assert(pt2[v1] == pt1[v1]);
        assert(!m1.frame_alloc().is_free(pt1[v1].0));
        assert(m1.frame_alloc().is_free(pt2[v2].0));
    }
}

/// Mapping an area and then unmapping the same range gives back the address space
/// as it was, and frees again every frame the mapping took.
pub proof fn lemma_map_unmap_round_trip(
    pt0: Map<usize, (usize, u8)>,
    pt1: Map<usize, (usize, u8)>,
    pt2: Map<usize, (usize, u8)>,
    m0: PhysMemory,
    m1: PhysMemory,
    m2: PhysMemory,
    start_va: usize,
    end_va: usize,
    perm: u8,
)
    requires
        is_aligned(start_va as int),
        forall|v: usize|
            vpn_of(start_va as int) <= v < vpn_ceil(end_va as int) ==> !#[trigger] pt0.contains_key(v),
        perm & PERM_U == PERM_U,
        area_inserted(pt0, pt1, m0, m1, vpn_of(start_va as int) as usize, vpn_ceil(end_va as int) as usize, perm),
        area_removed(pt1, pt2, m1, m2, vpn_of(start_va as int) as usize, vpn_ceil(end_va as int) as usize),
    ensures
        !remove_fails(pt1, start_va, end_va),
        pt2 == pt0,
        forall|q: usize| #[trigger] m2.frame_alloc().is_free(q) ==> m0.frame_alloc().is_free(q) || (exists|v: usize|
            vpn_of(start_va as int) <= v < vpn_ceil(end_va as int) && #[trigger] pt1[v].0 == q),
{
    let s = vpn_of(start_va as int) as usize;
    let e = vpn_ceil(end_va as int) as usize;
    assert(vpn_of(start_va as int) >= 0);
    assert(vpn_ceil(end_va as int) >= 0);
    assert forall|v: usize| s <= v < e implies #[trigger] user_mapped(pt1, v) by {
        lemma_user_bit_of(perm);
    }
    assert forall|v: usize| #[trigger] pt2.contains_key(v) <==> pt0.contains_key(v) by {}
    assert forall|v: usize| #[trigger] pt2.contains_key(v) implies pt2[v] == pt0[v] by {}
    assert(pt2 =~= pt0);
    assert forall|q: usize| #[trigger] m2.frame_alloc().is_free(q) implies m0.frame_alloc().is_free(q) || (exists|v: usize|
        vpn_of(start_va as int) <= v < vpn_ceil(end_va as int) && #[trigger] pt1[v].0 == q) by {
        if !m1.frame_alloc().is_free(q) {
            let v = choose|v: usize| s <= v < e && #[trigger] pt1[v].0 == q;
        }
    }
}

proof fn lemma_user_bit_of(perm: u8)
    requires
        perm & PERM_U == PERM_U,
    ensures
        (perm | PTE_V) & PERM_U == PERM_U,
{
    assert((perm | 1u8) & 16u8 == 16u8) by (bit_vector)
        requires
            perm & 16u8 == 16u8,
    ;
}

/// Adding the user bit makes a page a user page.
pub proof fn lemma_user_bit(p: u8)
    ensures
        ((p | PERM_U) | PTE_V) & PERM_U == PERM_U,
{
    assert(((p | 16u8) | 1u8) & 16u8 == 16u8) by (bit_vector);
}

/// The trampoline is not a user page.
pub proof fn lemma_trampoline_not_user()
    ensures
        trampoline_flags() & PERM_U != PERM_U,
{
    let f = trampoline_flags();
    assert(f & 16u8 != 16u8) by (bit_vector)
        requires
            f == (2u8 | 8u8) | 1u8,
    ;
}

proof fn lemma_div_in_frame(p: int, i: int)
    requires
        p >= 0,
        pa_of(p, 0) <= i < pa_of(p, PAGE_SIZE as int),
    ensures
        i / PAGE_SIZE as int == p,
{
    assert(i / 4096 == p) by (nonlinear_arith)
        requires
            p * 4096 <= i < p * 4096 + 4096,
    ;
}

proof fn lemma_frame_bounds(f: usize, k: int)
    requires
        0 <= k < PAGE_SIZE,
    ensures
        pa_of(f as int, 0) <= pa_of(f as int, k) < pa_of(f as int, PAGE_SIZE as int),
{
}

proof fn lemma_pa_outside_frame(f: usize, p: usize, k: int)
    requires
        f != p,
        0 <= k < PAGE_SIZE,
    ensures
        !(pa_of(p as int, 0) <= pa_of(f as int, k) < pa_of(p as int, PAGE_SIZE as int)),
{
    if f < p {
        assert(f * 4096 + k < p * 4096) by (nonlinear_arith)
            requires
                f < p,
                0 <= k < 4096,
        ;
    } else {
        assert(f * 4096 + k >= p * 4096 + 4096) by (nonlinear_arith)
            requires
                f > p,
                0 <= k < 4096,
        ;
    }
}

} // verus!
