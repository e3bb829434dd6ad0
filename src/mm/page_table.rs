use vstd::prelude::*;
use crate::mm::address::PTE_V;

verus! {

/// One mapping of a page table: virtual page `vpn` to physical page `ppn`.
#[derive(Clone, Copy, PartialEq, Eq, Debug)]
pub struct PageTableEntry {
    pub vpn: usize,
    pub ppn: usize,
    pub flags: u8,
}

impl PageTableEntry {
    /// Physical page number this entry points to.
    pub fn ppn(&self) -> (r: usize)
        ensures
            r == self.ppn,
    {
        self.ppn
    }

    /// Whether the entry's flags hold every bit of `mask`.
    pub fn has_flags(&self, mask: u8) -> (r: bool)
        ensures
            r == (self.flags & mask == mask),
    {
        self.flags & mask == mask
    }
}

/// Whether no two entries of `s` map the same virtual page.
pub open spec fn distinct_vpns(s: Seq<PageTableEntry>) -> bool {
    forall|i: int, j: int|
        0 <= i < s.len() && 0 <= j < s.len() && i != j ==> #[trigger] s[i].vpn != #[trigger] s[j].vpn
}

/// Whether some entry of `s` maps `vpn`.
pub open spec fn has_vpn(s: Seq<PageTableEntry>, vpn: usize) -> bool {
    exists|i: int| 0 <= i < s.len() && #[trigger] s[i].vpn == vpn
}

/// The mapping that a sequence of entries describes: page number to (frame, flags).
pub open spec fn entries_map(s: Seq<PageTableEntry>) -> Map<usize, (usize, u8)> {
    Map::new(
        |v: usize| has_vpn(s, v),
        |v: usize|
            {
                let i = choose|i: int| 0 <= i < s.len() && #[trigger] s[i].vpn == v;
                (s[i].ppn, s[i].flags)
            },
    )
}

proof fn lemma_entries_map_at(s: Seq<PageTableEntry>, i: int)
    requires
        distinct_vpns(s),
        0 <= i < s.len(),
    ensures
        entries_map(s).contains_key(s[i].vpn),
        entries_map(s)[s[i].vpn] == (s[i].ppn, s[i].flags),
{
    assert(has_vpn(s, s[i].vpn));
}

proof fn lemma_entries_map_push(s: Seq<PageTableEntry>, e: PageTableEntry)
    requires
        distinct_vpns(s),
        !has_vpn(s, e.vpn),
    ensures
        distinct_vpns(s.push(e)),
        entries_map(s.push(e)) == entries_map(s).insert(e.vpn, (e.ppn, e.flags)),
{
    let t = s.push(e);
    assert forall|i: int, j: int|
        0 <= i < t.len() && 0 <= j < t.len() && i != j implies #[trigger] t[i].vpn
        != #[trigger] t[j].vpn by {
        if i == s.len() {
            assert(s[j].vpn == t[j].vpn);
        } else if j == s.len() {
            assert(s[i].vpn == t[i].vpn);
        } else {
            assert(s[i] == t[i] && s[j] == t[j]);
        }
    }
    assert forall|v: usize| #[trigger] has_vpn(t, v) <==> (has_vpn(s, v) || v == e.vpn) by {
        if has_vpn(s, v) {
            let i = choose|i: int| 0 <= i < s.len() && #[trigger] s[i].vpn == v;
            assert(t[i] == s[i]);
        }
        if v == e.vpn {
            assert(t[s.len() as int] == e);
        }
        if has_vpn(t, v) && v != e.vpn {
            let i = choose|i: int| 0 <= i < t.len() && #[trigger] t[i].vpn == v;
            assert(i < s.len());
            assert(s[i] == t[i]);
        }
    }
    assert forall|v: usize| #[trigger] entries_map(t).contains_key(v) implies entries_map(t)[v]
        == entries_map(s).insert(e.vpn, (e.ppn, e.flags))[v] by {
        if v == e.vpn {
            lemma_entries_map_at(t, s.len() as int);
        } else {
            let i = choose|i: int| 0 <= i < s.len() && #[trigger] s[i].vpn == v;
            assert(t[i] == s[i]);
            lemma_entries_map_at(t, i);
            lemma_entries_map_at(s, i);
        }
    }
    assert(entries_map(t) =~= entries_map(s).insert(e.vpn, (e.ppn, e.flags)));
}

proof fn lemma_entries_map_remove(s: Seq<PageTableEntry>, k: int)
    requires
        distinct_vpns(s),
        0 <= k < s.len(),
    ensures
        distinct_vpns(s.remove(k)),
        entries_map(s.remove(k)) == entries_map(s).remove(s[k].vpn),
{
    let t = s.remove(k);
    assert forall|i: int, j: int|
        0 <= i < t.len() && 0 <= j < t.len() && i != j implies #[trigger] t[i].vpn
        != #[trigger] t[j].vpn by {
        let si = if i < k { i } else { i + 1 };
        let sj = if j < k { j } else { j + 1 };
        assert(t[i] == s[si] && t[j] == s[sj]);
    }
    assert forall|v: usize| #[trigger] has_vpn(t, v) <==> (has_vpn(s, v) && v != s[k].vpn) by {
        if has_vpn(t, v) {
            let i = choose|i: int| 0 <= i < t.len() && #[trigger] t[i].vpn == v;
            let si = if i < k { i } else { i + 1 };
            assert(t[i] == s[si]);
        }
        if has_vpn(s, v) && v != s[k].vpn {
            let i = choose|i: int| 0 <= i < s.len() && #[trigger] s[i].vpn == v;
            let ti = if i < k { i } else { i - 1 };
            assert(t[ti] == s[i]);
        }
    }
    assert forall|v: usize| #[trigger] entries_map(t).contains_key(v) implies entries_map(t)[v]
        == entries_map(s)[v] by {
        let i = choose|i: int| 0 <= i < t.len() && #[trigger] t[i].vpn == v;
        let si = if i < k { i } else { i + 1 };
        assert(t[i] == s[si]);
        lemma_entries_map_at(t, i);
        lemma_entries_map_at(s, si);
    }
    assert(entries_map(t) =~= entries_map(s).remove(s[k].vpn));
}

/// A page table: the set of page-level mappings of one address space, and the
/// frame that holds its root.
pub struct PageTable {
    root_ppn: usize,
    entries: Vec<PageTableEntry>,
}

impl PageTable {
    /// Page number to (frame, flags).
    pub closed spec fn view(&self) -> Map<usize, (usize, u8)> {
        entries_map(self.entries@)
    }

    /// The entries in the order they were made.
    pub closed spec fn entry_seq(&self) -> Seq<PageTableEntry> {
        self.entries@
    }

    /// Frame that holds the root of the table.
    pub closed spec fn root(&self) -> usize {
        self.root_ppn
    }

    /// Frame that holds the root of the table.
    pub fn root_ppn(&self) -> (r: usize)
        ensures
            r == self.root(),
    {
        self.root_ppn
    }

    pub closed spec fn wf(&self) -> bool {
        distinct_vpns(self.entries@)
    }

    /// The entry list describes the mapping.
    pub proof fn lemma_entry_seq(&self)
        requires
            self.wf(),
        ensures
            distinct_vpns(self.entry_seq()),
            self@ == entries_map(self.entry_seq()),
            forall|i: int|
                0 <= i < self.entry_seq().len() ==> #[trigger] self@.contains_key(
                    self.entry_seq()[i].vpn,
                ) && self@[self.entry_seq()[i].vpn] == (
                    self.entry_seq()[i].ppn,
                    self.entry_seq()[i].flags,
                ),
            forall|v: usize|
                #[trigger] self@.contains_key(v) ==> exists|i: int|
                    0 <= i < self.entry_seq().len() && #[trigger] self.entry_seq()[i].vpn == v,
            self@.dom().finite(),
            self@.dom().len() == self.entry_seq().len(),
    {
        assert forall|i: int| 0 <= i < self.entry_seq().len() implies #[trigger] self@.contains_key(
            self.entry_seq()[i].vpn,
        ) && self@[self.entry_seq()[i].vpn] == (
            self.entry_seq()[i].ppn,
            self.entry_seq()[i].flags,
        ) by {
            lemma_entries_map_at(self.entries@, i);
        }
        lemma_entries_map_dom(self.entries@);
    }

    /// A table whose root is the frame `root_ppn` and which maps nothing.
    pub fn new(root_ppn: usize) -> (r: PageTable)
        ensures
            r.wf(),
            r.root() == root_ppn,
            r@ == Map::<usize, (usize, u8)>::empty(),
    {
        let r = PageTable { root_ppn, entries: Vec::new() };
        assert(r@ =~= Map::<usize, (usize, u8)>::empty());
        r
    }

    /// Handle that identifies this table to the translation hardware: mode bits and root frame.
    pub fn token(&self) -> (r: usize)
        ensures
            r == token_of(self.root()),
    {
        ((8u64 << 60u64) | self.root_ppn as u64) as usize
    }

    fn find(&self, vpn: usize) -> (r: Option<usize>)
        requires
            self.wf(),
        ensures
            match r {
                Some(i) => i < self.entries@.len() && self.entries@[i as int].vpn == vpn,
                None => !self@.contains_key(vpn),
            },
    {
        let mut i: usize = 0;
        while i < self.entries.len()
            invariant
                i <= self.entries@.len(),
                forall|j: int| 0 <= j < i ==> #[trigger] self.entries@[j].vpn != vpn,
            decreases self.entries@.len() - i,
        {
            if self.entries[i].vpn == vpn {
                return Some(i);
            }
            i += 1;
        }
        None
    }

    /// The entry that maps `vpn`, if there is one.
    pub fn translate(&self, vpn: usize) -> (r: Option<PageTableEntry>)
        requires
            self.wf(),
        ensures
            match r {
                Some(e) => self@.contains_key(vpn) && self@[vpn] == (e.ppn, e.flags) && e.vpn
                    == vpn,
                None => !self@.contains_key(vpn),
            },
    {
        match self.find(vpn) {
            Some(i) => {
                proof {
                    lemma_entries_map_at(self.entries@, i as int);
                }
                Some(self.entries[i])
            },
            None => None,
        }
    }

    /// Whether `vpn` is mapped.
    pub fn is_mapped(&self, vpn: usize) -> (r: bool)
        requires
            self.wf(),
        ensures
            r == self@.contains_key(vpn),
    {
        self.find(vpn).is_some()
    }

    /// Maps `vpn` to `ppn` with `flags` and the valid bit.
    pub fn map(&mut self, vpn: usize, ppn: usize, flags: u8)
        requires
            old(self).wf(),
            !old(self)@.contains_key(vpn),
        ensures
            final(self).wf(),
            final(self).root() == old(self).root(),
            final(self)@ == old(self)@.insert(vpn, (ppn, flags | PTE_V)),
    {
        let e = PageTableEntry { vpn, ppn, flags: flags | PTE_V };
        proof {
            lemma_entries_map_push(self.entries@, e);
        }
        self.entries.push(e);
    }

    /// Removes the mapping of `vpn`.
    pub fn unmap(&mut self, vpn: usize)
        requires
            old(self).wf(),
            old(self)@.contains_key(vpn),
        ensures
            final(self).wf(),
            final(self).root() == old(self).root(),
            final(self)@ == old(self)@.remove(vpn),
    {
        match self.find(vpn) {
            Some(i) => {
                proof {
                    lemma_entries_map_remove(self.entries@, i as int);
                }
                self.entries.remove(i);
            },
            None => {},
        }
    }

    /// Number of mappings.
    pub fn len(&self) -> (r: usize)
        requires
            self.wf(),
        ensures
            r == self@.dom().len(),
    {
        proof {
            lemma_entries_map_dom(self.entries@);
        }
        self.entries.len()
    }

    /// The `i`-th entry in the order the mappings were made.
    pub fn entry_at(&self, i: usize) -> (r: PageTableEntry)
        requires
            i < self.entry_seq().len(),
        ensures
            r == self.entry_seq()[i as int],
    {
        self.entries[i]
    }
}

/// Token of the table rooted at `root_ppn`: paging mode 8 in the top four bits.
pub open spec fn token_of(root_ppn: usize) -> usize {
    ((8u64 << 60u64) | root_ppn as u64) as usize
}

proof fn lemma_entries_map_dom(s: Seq<PageTableEntry>)
    requires
        distinct_vpns(s),
    ensures
        entries_map(s).dom().finite(),
        entries_map(s).dom().len() == s.len(),
    decreases s.len(),
{
    if s.len() == 0 {
        assert(entries_map(s).dom() =~= Set::<usize>::empty());
    } else {
        let t = s.drop_last();
        let e = s.last();
        assert(distinct_vpns(t)) by {
            assert forall|i: int, j: int|
                0 <= i < t.len() && 0 <= j < t.len() && i != j implies #[trigger] t[i].vpn
                != #[trigger] t[j].vpn by {
                assert(t[i] == s[i] && t[j] == s[j]);
            }
        }
        assert(!has_vpn(t, e.vpn)) by {
            if has_vpn(t, e.vpn) {
                let i = choose|i: int| 0 <= i < t.len() && #[trigger] t[i].vpn == e.vpn;
                assert(t[i] == s[i]);
                assert(s[s.len() - 1] == e);
            }
        }
        lemma_entries_map_dom(t);
        lemma_entries_map_push(t, e);
        assert(t.push(e) =~= s);
    }
}

} // verus!
