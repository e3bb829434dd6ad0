use vstd::prelude::*;
use crate::config::{MAX_FRAMES, PAGE_SIZE, TRAMPOLINE_VPN};
use crate::mm::address::{floor, vpn_of};
use crate::mm::frame_allocator::{pa_of, PhysMemory};
use crate::mm::memory_set::MemorySet;

verus! {

/// Whether the virtual address `va` lies on a page that `pt` maps with every bit of `mask`.
pub open spec fn can_access(pt: Map<usize, (usize, u8)>, va: int, mask: u8) -> bool {
    &&& 0 <= va <= usize::MAX
    &&& pt.contains_key(vpn_of(va) as usize)
    &&& pt[vpn_of(va) as usize].1 & mask == mask
}

/// Physical address that the virtual address `va` reaches through `pt`.
pub open spec fn translated_pa(pt: Map<usize, (usize, u8)>, va: int) -> int {
    pa_of(pt[vpn_of(va) as usize].0 as int, va % PAGE_SIZE as int)
}

/// Whether each of the `len` bytes from `va` can be reached with `mask`.
pub open spec fn range_accessible(pt: Map<usize, (usize, u8)>, va: int, len: int, mask: u8) -> bool {
    forall|i: int| 0 <= i < len ==> #[trigger] can_access(pt, va + i, mask)
}

/// Memory `m` after storing the bytes `bs`, one after the other, from `va` on through `pt`.
pub open spec fn apply_writes(m: Seq<u8>, pt: Map<usize, (usize, u8)>, va: int, bs: Seq<u8>) -> Seq<u8>
    decreases bs.len(),
{
    if bs.len() == 0 {
        m
    } else {
        apply_writes(m, pt, va, bs.drop_last()).update(
            translated_pa(pt, va + bs.len() - 1),
            bs.last(),
        )
    }
}

/// Writing keeps the length of memory.
pub proof fn lemma_apply_writes_len(m: Seq<u8>, pt: Map<usize, (usize, u8)>, va: int, bs: Seq<u8>)
    requires
        forall|i: int| 0 <= i < bs.len() ==> 0 <= #[trigger] translated_pa(pt, va + i) < m.len(),
    ensures
        apply_writes(m, pt, va, bs).len() == m.len(),
    decreases bs.len(),
{
    if bs.len() > 0 {
        lemma_apply_writes_len(m, pt, va, bs.drop_last());
    }
}

/// A byte that none of the writes reaches keeps its value.
pub proof fn lemma_apply_writes_other(m: Seq<u8>, pt: Map<usize, (usize, u8)>, va: int, bs: Seq<u8>, x: int)
    requires
        forall|i: int| 0 <= i < bs.len() ==> 0 <= #[trigger] translated_pa(pt, va + i) < m.len(),
        0 <= x < m.len(),
        forall|i: int| 0 <= i < bs.len() ==> #[trigger] translated_pa(pt, va + i) != x,
    ensures
        apply_writes(m, pt, va, bs)[x] == m[x],
    decreases bs.len(),
{
    if bs.len() > 0 {
        lemma_apply_writes_len(m, pt, va, bs.drop_last());
        lemma_apply_writes_other(m, pt, va, bs.drop_last(), x);
        assert(translated_pa(pt, va + (bs.len() - 1)) != x);
    }
}

/// When the writes reach distinct bytes, each holds what was written there.
pub proof fn lemma_apply_writes_at(m: Seq<u8>, pt: Map<usize, (usize, u8)>, va: int, bs: Seq<u8>, j: int)
    requires
        0 <= j < bs.len(),
        forall|i: int| 0 <= i < bs.len() ==> 0 <= #[trigger] translated_pa(pt, va + i) < m.len(),

        forall|i: int| 0 <= i < bs.len() && i != j ==> #[trigger] translated_pa(pt, va + i) != translated_pa(pt, va + j),
    ensures
        apply_writes(m, pt, va, bs)[translated_pa(pt, va + j)] == bs[j],
    decreases bs.len(),
{
    let d = bs.drop_last();
    lemma_apply_writes_len(m, pt, va, d);
    if j < bs.len() - 1 {
        assert(translated_pa(pt, va + (bs.len() - 1)) != translated_pa(pt, va + j));
        lemma_apply_writes_at(m, pt, va, d, j);
    }
}

/// Distinct addresses reach distinct bytes when distinct pages have distinct frames.
pub proof fn lemma_pa_injective(pt: Map<usize, (usize, u8)>, a: int, b: int)
    requires
        0 <= a,
        0 <= b,
        a != b,
        vpn_of(a) != vpn_of(b) ==> pt[vpn_of(a) as usize].0 != pt[vpn_of(b) as usize].0,
    ensures
        translated_pa(pt, a) != translated_pa(pt, b),
{
    let fa = pt[vpn_of(a) as usize].0 as int;
    let fb = pt[vpn_of(b) as usize].0 as int;
    if vpn_of(a) == vpn_of(b) {
        assert(a % 4096 != b % 4096) by (nonlinear_arith)
            requires
                a / 4096 == b / 4096,
                a != b,
                0 <= a,
                0 <= b,
        ;
    } else {
        lemma_pa_frames_differ(fa, fb, a % 4096, b % 4096);
    }
}

/// Bytes of distinct frames are distinct.
pub proof fn lemma_pa_frames_differ(fa: int, fb: int, oa: int, ob: int)
    requires
        fa != fb,
        0 <= fa,
        0 <= fb,
        0 <= oa < 4096,
        0 <= ob < 4096,
    ensures
        pa_of(fa, oa) != pa_of(fb, ob),
        pa_of(fa, oa) / 4096 == fa,
{
    assert(fa * 4096 + oa != fb * 4096 + ob) by (nonlinear_arith)
        requires
            fa != fb,
            0 <= oa < 4096,
            0 <= ob < 4096,
    ;
    assert((fa * 4096 + oa) / 4096 == fa) by (nonlinear_arith)
        requires
            0 <= oa < 4096,
            0 <= fa,
    ;
}

/// Whether the `mem_size` bytes of segment `seg` hold its data and then zeros.
pub open spec fn segment_loaded(m: Seq<u8>, pt: Map<usize, (usize, u8)>, start_va: usize, mem_size: usize, data: Seq<u8>) -> bool {
    forall|i: int|
        0 <= i < mem_size ==> #[trigger] m[translated_pa(pt, start_va + i)] == if i < data.len() {
            data[i]
        } else {
            0u8
        }
}

/// Whether `s` is the string stored at `va`: its bytes are not zero, a zero byte
/// follows them, and all of them can be reached with `mask`.
pub open spec fn cstr_at(m: Seq<u8>, pt: Map<usize, (usize, u8)>, va: int, mask: u8, s: Seq<u8>) -> bool {
    &&& range_accessible(pt, va, s.len() + 1int, mask)
    &&& forall|i: int| 0 <= i < s.len() ==> s[i] != 0 && #[trigger] m[translated_pa(pt, va + i)] == s[i]
    &&& m[translated_pa(pt, va + s.len())] == 0
}

/// The string stored at an address is unique.
pub proof fn lemma_cstr_unique(m: Seq<u8>, pt: Map<usize, (usize, u8)>, va: int, mask: u8, s1: Seq<u8>, s2: Seq<u8>)
    requires
        cstr_at(m, pt, va, mask, s1),
        cstr_at(m, pt, va, mask, s2),
    ensures
        s1 == s2,
{
    if s1.len() < s2.len() {
        assert(m[translated_pa(pt, va + s1.len())] == s2[s1.len() as int]);
    } else if s2.len() < s1.len() {
        assert(m[translated_pa(pt, va + s2.len())] == s1[s2.len() as int]);
    } else {
        assert forall|i: int| 0 <= i < s1.len() implies s1[i] == s2[i] by {
            assert(m[translated_pa(pt, va + i)] == s1[i]);
            assert(m[translated_pa(pt, va + i)] == s2[i]);
        }
        assert(s1 =~= s2);
    }
}

/// Physical address of `va` in `ms`, when its page is mapped with every bit of `mask`.
pub fn translate_va(mem: &PhysMemory, ms: &MemorySet, va: usize, mask: u8) -> (r: Option<usize>)
    requires
        mem.wf(),
        ms.wf(mem.frame_alloc().end(), ms@[TRAMPOLINE_VPN as usize].0),
    ensures
        match r {
            Some(pa) => can_access(ms@, va as int, mask) && pa == translated_pa(ms@, va as int) && pa
                < mem@.len(),
            None => !can_access(ms@, va as int, mask),
        },
{
    let vpn = floor(va);
    match ms.translate(vpn) {
        Some(pte) => {
            if pte.has_flags(mask) {
                proof {
                    assert(ms@.contains_key(vpn));
                    assert(pte.ppn < mem.frame_alloc().end());
                    assert(pte.ppn * 4096 + 4096 <= MAX_FRAMES * 4096) by (nonlinear_arith)
                        requires
                            pte.ppn < MAX_FRAMES,
                    ;
                    assert(pte.ppn * 4096 + 4096 <= mem.frame_alloc().end() * 4096) by (nonlinear_arith)
                        requires
                            pte.ppn < mem.frame_alloc().end(),
                    ;
                }
                Some(pte.ppn * PAGE_SIZE + va % PAGE_SIZE)
            } else {
                None
            }
        },
        None => None,
    }
}

/// Whether each of the `len` bytes from `va` on can be reached through `ms` with `mask`.
pub fn accessible(mem: &PhysMemory, ms: &MemorySet, va: usize, len: usize, mask: u8) -> (r: bool)
    requires
        mem.wf(),
        ms.wf(mem.frame_alloc().end(), ms@[TRAMPOLINE_VPN as usize].0),
    ensures
        r == range_accessible(ms@, va as int, len as int, mask),
{
    let mut i: usize = 0;
    while i < len
        invariant
            i <= len,
            range_accessible(ms@, va as int, i as int, mask),
            mem.wf(),
            ms.wf(mem.frame_alloc().end(), ms@[TRAMPOLINE_VPN as usize].0),
        decreases len - i,
    {
        if i > usize::MAX - va {
            assert(!can_access(ms@, va + i, mask));
            return false;
        }
        match translate_va(mem, ms, va + i, mask) {
            Some(_) => {},
            None => {
                assert(!can_access(ms@, va + i, mask));
                return false;
            },
        }
        i += 1;
    }
    true
}

/// Stores `bytes` from the virtual address `va` on, through `ms`; every byte or none.
/// Returns `false`, with memory unchanged, when one of them falls on a page that is
/// not mapped with every bit of `mask`.
pub fn translated_write(mem: &mut PhysMemory, ms: &MemorySet, va: usize, bytes: &Vec<u8>, mask: u8) -> (r: bool)
    requires
        old(mem).wf(),
        ms.wf(old(mem).frame_alloc().end(), ms@[TRAMPOLINE_VPN as usize].0),
    ensures
        final(mem).wf(),
        final(mem).frame_alloc() == old(mem).frame_alloc(),
        r == range_accessible(ms@, va as int, bytes@.len() as int, mask),
        !r ==> *final(mem) == *old(mem),
        r ==> final(mem)@ == apply_writes(old(mem)@, ms@, va as int, bytes@),
{
    let n = bytes.len();
    let mut i: usize = 0;
    while i < n
        invariant
            i <= n == bytes@.len(),
            range_accessible(ms@, va as int, i as int, mask),
            mem.wf(),
            *mem == *old(mem),
            ms.wf(mem.frame_alloc().end(), ms@[TRAMPOLINE_VPN as usize].0),
        decreases n - i,
    {
        if i > usize::MAX - va {
            assert(!can_access(ms@, va + i, mask));
            return false;
        }
        match translate_va(mem, ms, va + i, mask) {
            Some(_) => {},
            None => {
                assert(!can_access(ms@, va + i, mask));
                return false;
            },
        }
        i += 1;
    }
    let mut k: usize = 0;
    while k < n
        invariant
            k <= n == bytes@.len(),
            range_accessible(ms@, va as int, n as int, mask),
            mem.wf(),
            ms.wf(mem.frame_alloc().end(), ms@[TRAMPOLINE_VPN as usize].0),
            mem.frame_alloc() == old(mem).frame_alloc(),
            mem@ == apply_writes(old(mem)@, ms@, va as int, bytes@.take(k as int)),
        decreases n - k,
    {
        assert(can_access(ms@, va + k, mask));
        let pa = translate_va(mem, ms, va + k, mask).unwrap();
        mem.write(pa, bytes[k]);
        proof {
            let t = bytes@.take(k + 1);
            assert(t.drop_last() =~= bytes@.take(k as int));
            assert(t.last() == bytes@[k as int]);
        }
        k += 1;
    }
    assert(bytes@.take(n as int) =~= bytes@);
    true
}

/// The `len` bytes from the virtual address `va` on, read through `ms`; `None` when one
/// of them falls on a page that is not mapped with every bit of `mask`.
pub fn translated_read(mem: &PhysMemory, ms: &MemorySet, va: usize, len: usize, mask: u8) -> (r: Option<Vec<u8>>)
    requires
        mem.wf(),
        ms.wf(mem.frame_alloc().end(), ms@[TRAMPOLINE_VPN as usize].0),
    ensures
        r.is_some() == range_accessible(ms@, va as int, len as int, mask),
        match r {
            Some(v) => v@.len() == len && forall|i: int|
                0 <= i < len ==> #[trigger] v@[i] == mem@[translated_pa(ms@, va + i)],
            None => true,
        },
{
    let mut out: Vec<u8> = Vec::new();
    let mut i: usize = 0;
    while i < len
        invariant
            i <= len,
            out@.len() == i,
            range_accessible(ms@, va as int, i as int, mask),
            forall|j: int| 0 <= j < i ==> #[trigger] out@[j] == mem@[translated_pa(ms@, va + j)],
            mem.wf(),
            ms.wf(mem.frame_alloc().end(), ms@[TRAMPOLINE_VPN as usize].0),
        decreases len - i,
    {
        if i > usize::MAX - va {
            assert(!can_access(ms@, va + i, mask));
            return None;
        }
        match translate_va(mem, ms, va + i, mask) {
            Some(pa) => {
                out.push(mem.read(pa));
            },
            None => {
                assert(!can_access(ms@, va + i, mask));
                return None;
            },
        }
        i += 1;
    }
    Some(out)
}

/// The zero-terminated string at the virtual address `va`, read through `ms` with
/// `mask`, without its terminator; `None` when a page is found unreachable first.
pub fn translated_str(mem: &PhysMemory, ms: &MemorySet, va: usize, mask: u8) -> (r: Option<Vec<u8>>)
    requires
        mem.wf(),
        ms.wf(mem.frame_alloc().end(), ms@[TRAMPOLINE_VPN as usize].0),
    ensures
        match r {
            Some(s) => cstr_at(mem@, ms@, va as int, mask, s@),
            None => forall|s: Seq<u8>| !cstr_at(mem@, ms@, va as int, mask, s),
        },
{
    let mut out: Vec<u8> = Vec::new();
    let mut i: usize = 0;
    loop
        invariant
            out@.len() == i,
            i <= usize::MAX - va + 1,
            range_accessible(ms@, va as int, i as int, mask),
            forall|j: int| 0 <= j < i ==> #[trigger] out@[j] != 0,
            forall|j: int| 0 <= j < i ==> mem@[translated_pa(ms@, va + j)] == #[trigger] out@[j],
            mem.wf(),
            ms.wf(mem.frame_alloc().end(), ms@[TRAMPOLINE_VPN as usize].0),
        decreases usize::MAX - va + 1 - i,
    {
        if i > usize::MAX - va {
            proof {
                assert(!can_access(ms@, va + i, mask));
                assert forall|j: int| 0 <= j < out@.len() implies out@[j] != 0
                    && #[trigger] mem@[translated_pa(ms@, va + j)] == out@[j] by {
                    assert(out@[j] != 0 && mem@[translated_pa(ms@, va + j)] == out@[j]);
                }
                lemma_no_cstr(mem@, ms@, va as int, mask, out@);
            }
            return None;
        }
        match translate_va(mem, ms, va + i, mask) {
            Some(pa) => {
                let b = mem.read(pa);
                if b == 0 {
                    proof {
                        assert forall|j: int| 0 <= j < out@.len() implies out@[j] != 0
                            && #[trigger] mem@[translated_pa(ms@, va + j)] == out@[j] by {
                            assert(out@[j] != 0 && mem@[translated_pa(ms@, va + j)] == out@[j]);
                        }
                        assert forall|j: int| 0 <= j < out@.len() + 1 implies #[trigger] can_access(
                            ms@,
                            va + j,
                            mask,
                        ) by {
                            if j < i {
                                assert(can_access(ms@, va + j, mask));
                            }
                        }
                    }
                    return Some(out);
                }
                let ghost out0 = out@;
                out.push(b);
                proof {
                    assert forall|j: int| 0 <= j < i + 1 implies out@[j] != 0
                        && #[trigger] mem@[translated_pa(ms@, va + j)] == out@[j] by {
                        if j < i {
                            assert(out0[j] != 0 && mem@[translated_pa(ms@, va + j)] == out0[j]);
                        }
                    }
                }
            },
            None => {
                proof {
                    assert forall|j: int| 0 <= j < out@.len() implies out@[j] != 0
                        && #[trigger] mem@[translated_pa(ms@, va + j)] == out@[j] by {
                        assert(out@[j] != 0 && mem@[translated_pa(ms@, va + j)] == out@[j]);
                    }
                    lemma_no_cstr(mem@, ms@, va as int, mask, out@);
                }
                return None;
            },
        }
        if i == usize::MAX {
            proof {
                assert forall|j: int| 0 <= j < out@.len() implies out@[j] != 0
                    && #[trigger] mem@[translated_pa(ms@, va + j)] == out@[j] by {
                    assert(out@[j] != 0 && mem@[translated_pa(ms@, va + j)] == out@[j]);
                }
                assert forall|j: int| 0 <= j < out@.len() implies #[trigger] can_access(
                    ms@,
                    va + j,
                    mask,
                ) by {
                    if j < i {
                        assert(can_access(ms@, va + j, mask));
                    }
                }
                lemma_no_cstr(mem@, ms@, va as int, mask, out@);
            }
            return None;
        }
        i += 1;
    }
}

proof fn lemma_no_cstr(m: Seq<u8>, pt: Map<usize, (usize, u8)>, va: int, mask: u8, prefix: Seq<u8>)
    requires
        range_accessible(pt, va, prefix.len() as int, mask),
        forall|j: int|
            0 <= j < prefix.len() ==> prefix[j] != 0 && #[trigger] m[translated_pa(pt, va + j)]
                == prefix[j],
        !can_access(pt, va + prefix.len(), mask),
    ensures
        forall|s: Seq<u8>| !cstr_at(m, pt, va, mask, s),
{
    assert forall|s: Seq<u8>| !cstr_at(m, pt, va, mask, s) by {
        if cstr_at(m, pt, va, mask, s) {
            if s.len() < prefix.len() {
                assert(m[translated_pa(pt, va + s.len())] == prefix[s.len() as int]);
            } else {
                assert(can_access(pt, va + prefix.len(), mask));
            }
        }
    }
}

} // verus!
