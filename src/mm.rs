//! Physical frames and per-task address spaces.
use vstd::prelude::*;

verus! {

/// Bytes in a page.
pub const PAGE_SIZE: usize = 4096;

/// Page table entry flag bits.
pub const PTE_V: u8 = 1;
pub const PTE_R: u8 = 2;
pub const PTE_W: u8 = 4;
pub const PTE_X: u8 = 8;

/// The page-table flags a user permission mask gives: bit 0 (read), bit 1
/// (write) and bit 2 (execute) become R, W and X, and V is always set.
pub open spec fn flags_of_port(port: usize) -> u8
    recommends
        port < 8,
{
    (2 * port + 1) as u8
}

/// A source of physical frames: a range never handed out yet, and a stack
/// of frames handed back.
pub struct FrameAllocator {
    current: usize,
    end: usize,
    recycled: Vec<usize>,
}

impl FrameAllocator {
    pub closed spec fn wf(&self) -> bool {
        &&& self.current <= self.end
        &&& self.recycled@.no_duplicates()
        &&& forall|i: int| 0 <= i < self.recycled@.len() ==> #[trigger] self.recycled@[i] < self.current
    }

    /// Whether frame `ppn` may be handed out.
    pub closed spec fn is_free(&self, ppn: usize) -> bool {
        self.recycled@.contains(ppn) || (self.current <= ppn < self.end)
    }

    /// One past the highest frame this allocator manages.
    pub closed spec fn frame_end(&self) -> usize {
        self.end
    }

    /// Number of frames that may be handed out.
    pub closed spec fn available(&self) -> nat {
        self.recycled@.len() + (self.end - self.current) as nat
    }

    /// An allocator over frames `[start, end)`.
    pub fn new(start: usize, end: usize) -> (r: Self)
        requires
            start <= end,
        ensures
            r.wf(),
            r.available() == end - start,
            r.frame_end() == end,
            forall|p: usize| r.is_free(p) <==> start <= p < end,
    {
        FrameAllocator { current: start, end, recycled: Vec::new() }
    }

    /// Number of frames that may be handed out.
    pub fn frames_left(&self) -> (r: usize)
        requires
            self.wf(),
        ensures
            r == self.available(),
    {
        let n = self.recycled.len();
        let rest = self.end - self.current;
        if n <= usize::MAX - rest {
            n + rest
        } else {
            proof {
                self.lemma_recycled_bounded();
            }
            n + rest
        }
    }

    proof fn lemma_recycled_bounded(&self)
        requires
            self.wf(),
        ensures
            self.recycled@.len() <= self.current,
    {
        let s = self.recycled@;
        let below = vstd::set_lib::FiniteRange::range_set(0usize, self.current);
        <usize as vstd::set_lib::FiniteRange>::range_properties(0usize, self.current);
        s.unique_seq_to_set();
        assert forall|p: usize| s.to_set().contains(p) implies below.contains(p) by {
            let k = choose|k: int| 0 <= k < s.len() && s[k] == p;
        }
        vstd::set_lib::lemma_len_subset(s.to_set(), below);
    }

    /// Every free frame lies below the allocator's end.
    pub proof fn lemma_free_below_end(&self, p: usize)
        requires
            self.wf(),
            self.is_free(p),
        ensures
            p < self.frame_end(),
    {
        if self.recycled@.contains(p) {
            let k = choose|k: int| 0 <= k < self.recycled@.len() && self.recycled@[k] == p;
            assert(self.recycled@[k] < self.current);
        }
    }

    /// Hands out a free frame, or `None` when none is left.
    pub fn alloc_frame(&mut self) -> (r: Option<usize>)
        requires
            old(self).wf(),
        ensures
            final(self).wf(),
            r.is_none() <==> old(self).available() == 0,
            r.is_none() ==> final(self).available() == 0,
            r.is_none() ==> forall|p: usize| final(self).is_free(p) == old(self).is_free(p),
            final(self).frame_end() == old(self).frame_end(),
            r.is_some() ==> {
                &&& old(self).is_free(r.unwrap())
                &&& final(self).available() == old(self).available() - 1
                &&& forall|p: usize| final(self).is_free(p) <==> (old(self).is_free(p) && p != r.unwrap())
            },
    {
        match self.recycled.pop() {
            Some(p) => {
                proof {
                    let s = old(self).recycled@;
                    assert(s == self.recycled@.push(p));
                    assert(s[s.len() - 1] == p);
                    assert forall|q: usize| self.is_free(q) <==> (old(self).is_free(q) && q != p) by {
                        if self.recycled@.contains(q) {
                            let k = choose|k: int| 0 <= k < self.recycled@.len() && self.recycled@[k] == q;
                            assert(s[k] == q);
                        }
                        if s.contains(q) && q != p {
                            let k = choose|k: int| 0 <= k < s.len() && s[k] == q;
                            assert(self.recycled@[k] == q);
                        }
                    }
                }
                Some(p)
            },
            None => {
                if self.current < self.end {
                    let p = self.current;
                    self.current = self.current + 1;
                    Some(p)
                } else {
                    None
                }
            },
        }
    }

    /// Takes frame `ppn` back. A frame that was never handed out, or that is
    /// already free, is ignored.
    pub fn dealloc_frame(&mut self, ppn: usize)
        requires
            old(self).wf(),
        ensures
            final(self).wf(),
            final(self).frame_end() == old(self).frame_end(),
            forall|p: usize| #[trigger] final(self).is_free(p) <==> (old(self).is_free(p) || (p == ppn && ppn < old(self).frame_end())),
    {
        if ppn >= self.current {
            return;
        }
        let mut i: usize = 0;
        while i < self.recycled.len()
            invariant
                self.wf(),
                i <= self.recycled@.len(),
                forall|k: int| 0 <= k < i ==> self.recycled@[k] != ppn,
            decreases self.recycled@.len() - i,
        {
            if self.recycled[i] == ppn {
                return;
            }
            i = i + 1;
        }
        self.recycled.push(ppn);
        proof {
            let s = old(self).recycled@;
            assert(self.recycled@ == s.push(ppn));
            assert forall|a: int, b: int| 0 <= a < b < self.recycled@.len() implies self.recycled@[a] != self.recycled@[b] by {
                if b < s.len() {
                    assert(s.no_duplicates());
                }
            }
            assert forall|p: usize| #[trigger] self.is_free(p) <==> (old(self).is_free(p) || p == ppn) by {
                if self.recycled@.contains(p) && p != ppn {
                    let k = choose|k: int| 0 <= k < self.recycled@.len() && self.recycled@[k] == p;
                    assert(s[k] == p);
                }
                if s.contains(p) {
                    let k = choose|k: int| 0 <= k < s.len() && s[k] == p;
                    assert(self.recycled@[k] == p);
                }
                if p == ppn {
                    assert(self.recycled@[s.len() as int] == p);
                }
            }
        }
    }
}

/// A piece of a user buffer that lies within one physical frame: `len`
/// bytes at byte `offset` of frame `ppn`.
#[derive(Clone, Copy, Debug, PartialEq, Eq, Structural)]
pub struct Segment {
    pub ppn: usize,
    pub offset: usize,
    pub len: usize,
}

/// The number of the page holding address `a`.
pub open spec fn page_of(a: int) -> int {
    a / (PAGE_SIZE as int)
}

/// The offset of address `a` within its page.
pub open spec fn offset_in_page(a: int) -> int {
    a % (PAGE_SIZE as int)
}

/// Bytes from virtual address `a` to the end of its page, or to `end`.
pub open spec fn piece_len(a: int, end: int) -> int {
    let rest = PAGE_SIZE as int - offset_in_page(a);
    if rest < end - a {
        rest
    } else {
        end - a
    }
}

/// Virtual address at which piece `k` of the buffer `[va, end)` starts,
/// each piece running to the end of its page or of the buffer.
pub open spec fn piece_start(va: int, end: int, k: nat) -> int
    decreases k,
{
    if k == 0 {
        va
    } else {
        let p = piece_start(va, end, (k - 1) as nat);
        p + piece_len(p, end)
    }
}

/// One mapping of a page table.
#[derive(Clone, Copy, Debug, PartialEq, Eq, Structural)]
pub struct PageTableEntry {
    pub vpn: usize,
    pub ppn: usize,
    pub flags: u8,
}

/// The map from virtual page number to (physical page number, flags) that
/// a sequence of entries with distinct page numbers describes.
pub open spec fn entries_view(s: Seq<PageTableEntry>) -> Map<usize, (usize, u8)> {
    Map::new(
        |v: usize| exists|i: int| 0 <= i < s.len() && (#[trigger] s[i]).vpn == v,
        |v: usize|
            {
                let i = choose|i: int| 0 <= i < s.len() && (#[trigger] s[i]).vpn == v;
                (s[i].ppn, s[i].flags)
            },
    )
}

/// No two entries map the same virtual page.
pub open spec fn distinct_vpns(s: Seq<PageTableEntry>) -> bool {
    forall|a: int, b: int| 0 <= a < s.len() && 0 <= b < s.len() && a != b ==> (#[trigger] s[a]).vpn != (#[trigger] s[b]).vpn
}

/// Virtual pages `[lo, hi)`.
pub open spec fn in_range(v: usize, lo: usize, hi: usize) -> bool {
    lo <= v < hi
}

/// `m` without the pages of `[lo, hi)`.
pub open spec fn outside_range(m: Map<usize, (usize, u8)>, lo: usize, hi: usize) -> Map<usize, (usize, u8)> {
    Map::new(|v: usize| m.contains_key(v) && !in_range(v, lo, hi), |v: usize| m[v])
}

/// When `map_range(lo, hi)` succeeds: no page of the range is mapped and
/// enough frames are left.
pub open spec fn map_ok(m: Map<usize, (usize, u8)>, frames: FrameAllocator, lo: usize, hi: usize) -> bool {
    &&& forall|v: usize| in_range(v, lo, hi) ==> !(#[trigger] m.contains_key(v))
    &&& hi - lo <= frames.available()
}

/// Frame `p` backs some page of `[lo, hi)` in `m`.
pub open spec fn backs_range(m: Map<usize, (usize, u8)>, lo: usize, hi: usize, p: usize) -> bool {
    exists|v: usize| #[trigger] in_range(v, lo, hi) && m.contains_key(v) && m[v].0 == p
}

/// What a successful `map_range(lo, hi, flags)` does: the range is added,
/// every page backed by a frame that was free and now is not, with `flags`;
/// other mappings are kept.
pub open spec fn mapped_fresh(
    m0: Map<usize, (usize, u8)>,
    m1: Map<usize, (usize, u8)>,
    f0: FrameAllocator,
    f1: FrameAllocator,
    lo: usize,
    hi: usize,
    flags: u8,
) -> bool {
    &&& f1.available() == f0.available() - (hi - lo)
    &&& forall|v: usize| #[trigger] m1.contains_key(v) <==> (m0.contains_key(v) || in_range(v, lo, hi))
    &&& forall|v: usize| #[trigger] m0.contains_key(v) ==> m1[v] == m0[v]
    &&& forall|v: usize| #[trigger] in_range(v, lo, hi) ==> {
        &&& m1[v].1 == flags
        &&& f0.is_free(m1[v].0)
        &&& !f1.is_free(m1[v].0)
    }
    &&& forall|q: usize| #[trigger] f1.is_free(q) <==> (f0.is_free(q) && !backs_range(m1, lo, hi, q))
    &&& forall|v: usize, w: usize|
        #![trigger in_range(v, lo, hi), in_range(w, lo, hi)]
        in_range(v, lo, hi) && in_range(w, lo, hi) && v != w ==> m1[v].0 != m1[w].0
}

/// When `unmap_range(lo, hi)` succeeds: every page of the range is mapped.
pub open spec fn unmap_ok(m: Map<usize, (usize, u8)>, lo: usize, hi: usize) -> bool {
    forall|v: usize| in_range(v, lo, hi) ==> #[trigger] m.contains_key(v)
}

/// Frame `p` backs an entry among the first `i` of `s` whose page lies in `[lo, hi)`.
pub open spec fn freed_prefix(s: Seq<PageTableEntry>, i: int, lo: usize, hi: usize, p: usize) -> bool {
    exists|k: int| 0 <= k < i && #[trigger] in_range(s[k].vpn, lo, hi) && s[k].ppn == p
}

/// Frame `p` backs some page in `m`.
pub open spec fn maps_frame(m: Map<usize, (usize, u8)>, p: usize) -> bool {
    exists|v: usize| #[trigger] m.contains_key(v) && m[v].0 == p
}

/// Frame `p` backs one of the first `i` entries of `s`.
pub open spec fn released_prefix(s: Seq<PageTableEntry>, i: int, p: usize) -> bool {
    exists|k: int| 0 <= k < i && (#[trigger] s[k]).ppn == p
}

/// What a successful `unmap_range(lo, hi)` does: the range is removed and
/// its frames are free again; other mappings are kept.
pub open spec fn unmapped(
    m0: Map<usize, (usize, u8)>,
    m1: Map<usize, (usize, u8)>,
    f0: FrameAllocator,
    f1: FrameAllocator,
    lo: usize,
    hi: usize,
) -> bool {
    &&& m1 == outside_range(m0, lo, hi)
    &&& forall|p: usize| #[trigger] f0.is_free(p) ==> f1.is_free(p)
    &&& forall|v: usize| #[trigger] in_range(v, lo, hi) && m0[v].0 < f0.frame_end() ==> f1.is_free(m0[v].0)
    &&& forall|p: usize| #[trigger] f1.is_free(p) <==> (f0.is_free(p) || (backs_range(m0, lo, hi, p) && p < f0.frame_end()))
}

proof fn lemma_view_at(s: Seq<PageTableEntry>, i: int)
    requires
        distinct_vpns(s),
        0 <= i < s.len(),
    ensures
        entries_view(s).contains_key(s[i].vpn),
        entries_view(s)[s[i].vpn] == (s[i].ppn, s[i].flags),
{
    assert(s[i].vpn == s[i].vpn);
}

proof fn lemma_push_view(s: Seq<PageTableEntry>, e: PageTableEntry)
    requires
        distinct_vpns(s),
        !entries_view(s).contains_key(e.vpn),
    ensures
        distinct_vpns(s.push(e)),
        entries_view(s.push(e)) == entries_view(s).insert(e.vpn, (e.ppn, e.flags)),
{
    let t = s.push(e);
    assert forall|a: int, b: int| 0 <= a < t.len() && 0 <= b < t.len() && a != b implies (#[trigger] t[a]).vpn != (#[trigger] t[b]).vpn by {
        if a < s.len() && b < s.len() {
            assert(s[a] == t[a] && s[b] == t[b]);
        } else if a < s.len() {
            assert(s[a] == t[a]);
        } else {
            assert(s[b] == t[b]);
        }
    }
    let m = entries_view(s).insert(e.vpn, (e.ppn, e.flags));
    assert forall|v: usize| #[trigger] entries_view(t).contains_key(v) <==> m.contains_key(v) by {
        if entries_view(s).contains_key(v) {
            let i = choose|i: int| 0 <= i < s.len() && (#[trigger] s[i]).vpn == v;
            assert(t[i] == s[i]);
        }
        if v == e.vpn {
            assert(t[s.len() as int] == e);
        }
        if entries_view(t).contains_key(v) && v != e.vpn {
            let i = choose|i: int| 0 <= i < t.len() && (#[trigger] t[i]).vpn == v;
            assert(i < s.len());
            assert(s[i] == t[i]);
        }
    }
    assert forall|v: usize| #[trigger] m.contains_key(v) implies entries_view(t)[v] == m[v] by {
        if v == e.vpn {
            assert(t[s.len() as int] == e);
            lemma_view_at(t, s.len() as int);
        } else {
            let i = choose|i: int| 0 <= i < s.len() && (#[trigger] s[i]).vpn == v;
            lemma_view_at(s, i);
            assert(t[i] == s[i]);
            lemma_view_at(t, i);
        }
    }
    assert(entries_view(t) =~= m);
}

/// A task's address space: the page table of its user mappings, each backed
/// by one physical frame.
pub struct AddressSpace {
    entries: Vec<PageTableEntry>,
}

impl AddressSpace {
    /// Virtual page number to (physical page number, flags).
    pub closed spec fn view(&self) -> Map<usize, (usize, u8)> {
        entries_view(self.entries@)
    }

    pub closed spec fn wf(&self) -> bool {
        &&& distinct_vpns(self.entries@)
        &&& forall|i: int| 0 <= i < self.entries@.len() ==> (#[trigger] self.entries@[i]).flags % 2 == 1
    }

    /// Every mapping carries the valid flag.
    pub proof fn lemma_mappings_valid(&self)
        requires
            self.wf(),
        ensures
            forall|v: usize| #[trigger] self.view().contains_key(v) ==> self.view()[v].1 % 2 == 1,
    {
        assert forall|v: usize| #[trigger] self.view().contains_key(v) implies self.view()[v].1 % 2 == 1 by {
            let i = choose|i: int| 0 <= i < self.entries@.len() && (#[trigger] self.entries@[i]).vpn == v;
            lemma_view_at(self.entries@, i);
        }
    }

    /// An address space with no mappings.
    pub fn new() -> (r: Self)
        ensures
            r.wf(),
            r.view() == Map::<usize, (usize, u8)>::empty(),
    {
        let r = AddressSpace { entries: Vec::new() };
        assert(r.view() =~= Map::<usize, (usize, u8)>::empty());
        r
    }

    /// Number of mapped pages.
    pub fn len(&self) -> (r: usize)
        requires
            self.wf(),
        ensures
            r == self.view().len(),
    {
        proof {
            self.lemma_len();
        }
        self.entries.len()
    }

    proof fn lemma_len(&self)
        requires
            self.wf(),
        ensures
            self.view().dom().finite(),
            self.view().len() == self.entries@.len(),
        decreases self.entries@.len(),
    {
        let s = self.entries@;
        let vs = s.map_values(|e: PageTableEntry| e.vpn);
        assert forall|a: int, b: int| 0 <= a < vs.len() && 0 <= b < vs.len() && a != b implies vs[a] != vs[b] by {
            assert(s[a].vpn != s[b].vpn);
        }
        assert(vs.no_duplicates());
        vs.unique_seq_to_set();
        assert forall|v: usize| self.view().dom().contains(v) <==> vs.to_set().contains(v) by {
            if self.view().dom().contains(v) {
                let i = choose|i: int| 0 <= i < s.len() && (#[trigger] s[i]).vpn == v;
                assert(vs[i] == v);
            }
            if vs.to_set().contains(v) {
                let i = choose|i: int| 0 <= i < vs.len() && vs[i] == v;
                assert(s[i].vpn == v);
            }
        }
        assert(self.view().dom() =~= vs.to_set());
    }

    /// Index of the entry for `vpn`, if mapped.
    fn find(&self, vpn: usize) -> (r: Option<usize>)
        requires
            self.wf(),
        ensures
            r.is_none() <==> !self.view().contains_key(vpn),
            r.is_some() ==> r.unwrap() < self.entries@.len() && self.entries@[r.unwrap() as int].vpn == vpn,
    {
        let mut i: usize = 0;
        while i < self.entries.len()
            invariant
                i <= self.entries@.len(),
                forall|k: int| 0 <= k < i ==> (#[trigger] self.entries@[k]).vpn != vpn,
            decreases self.entries@.len() - i,
        {
            if self.entries[i].vpn == vpn {
                return Some(i);
            }
            i = i + 1;
        }
        None
    }

    /// The mapping of page `vpn`, if any.
    pub fn translate(&self, vpn: usize) -> (r: Option<PageTableEntry>)
        requires
            self.wf(),
        ensures
            r.is_none() <==> !self.view().contains_key(vpn),
            r.is_some() ==> r.unwrap().vpn == vpn && self.view()[vpn] == (r.unwrap().ppn, r.unwrap().flags),
    {
        match self.find(vpn) {
            Some(i) => {
                proof {
                    lemma_view_at(self.entries@, i as int);
                }
                Some(self.entries[i])
            },
            None => None,
        }
    }

    /// Maps every page of `[lo, hi)` to a newly allocated frame with
    /// `flags`, or nothing at all: the call fails, changing nothing, when a
    /// page of the range is already mapped or too few frames are left.
    pub fn map_range(&mut self, frames: &mut FrameAllocator, lo: usize, hi: usize, flags: u8) -> (r: bool)
        requires
            old(self).wf(),
            old(frames).wf(),
            lo <= hi,
            flags % 2 == 1,
        ensures
            final(self).wf(),
            final(frames).wf(),
            final(frames).frame_end() == old(frames).frame_end(),
            r <==> ((forall|v: usize| in_range(v, lo, hi) ==> !(#[trigger] old(self).view().contains_key(v)))
                && hi - lo <= old(frames).available()),
            !r ==> final(self).view() == old(self).view() && *final(frames) == *old(frames),
            r ==> mapped_fresh(old(self).view(), final(self).view(), *old(frames), *final(frames), lo, hi, flags),
    {
        let count = hi - lo;
        if frames.frames_left() < count {
            return false;
        }
        let mut v: usize = lo;
        while v < hi
            invariant
                lo <= v <= hi,
                self.wf(),
                frames.wf(),
                *frames == *old(frames),
                forall|w: usize| in_range(w, lo, v) ==> !(#[trigger] self.view().contains_key(w)),
            decreases hi - v,
        {
            if self.find(v).is_some() {
                return false;
            }
            v = v + 1;
        }
        let ghost m0 = self.view();
        let mut v: usize = lo;
        while v < hi
            invariant
                lo <= v <= hi,
                self.wf(),
                frames.wf(),
                frames.frame_end() == old(frames).frame_end(),
                m0 == old(self).view(),
                flags % 2 == 1,
                forall|w: usize| in_range(w, lo, hi) ==> !(#[trigger] m0.contains_key(w)),
                frames.available() + (v - lo) == old(frames).available(),
                hi - lo <= old(frames).available(),
                forall|q: usize| #[trigger] frames.is_free(q) ==> old(frames).is_free(q),
                forall|w: usize| #[trigger] self.view().contains_key(w) <==> (m0.contains_key(w) || in_range(w, lo, v)),
                forall|w: usize| #[trigger] m0.contains_key(w) ==> self.view()[w] == m0[w],
                forall|w: usize| #[trigger] in_range(w, lo, v) ==> {
                    &&& self.view()[w].1 == flags
                    &&& old(frames).is_free(self.view()[w].0)
                    &&& !frames.is_free(self.view()[w].0)
                },
                forall|q: usize| #[trigger] frames.is_free(q) <==> (old(frames).is_free(q) && !backs_range(self.view(), lo, v, q)),
                forall|a: usize, b: usize|
                    #![trigger in_range(a, lo, v), in_range(b, lo, v)]
                    in_range(a, lo, v) && in_range(b, lo, v) && a != b ==> self.view()[a].0 != self.view()[b].0,
            decreases hi - v,
        {
            let ghost f0 = *frames;
            let p = match frames.alloc_frame() {
                Some(p) => p,
                None => {
                    proof {
                        assert(false);
                    }
                    return false;
                },
            };
            let e = PageTableEntry { vpn: v, ppn: p, flags };
            let ghost before = self.view();
            let ghost es = self.entries@;
            proof {
                assert(in_range(v, lo, hi));
                assert(!before.contains_key(v));
                lemma_push_view(self.entries@, e);
            }
            self.entries.push(e);
            proof {
                assert(self.view() == before.insert(v, (p, flags)));
                assert forall|i: int| 0 <= i < self.entries@.len() implies (#[trigger] self.entries@[i]).flags % 2 == 1 by {
                    if i < es.len() {
                        assert(self.entries@[i] == es[i]);
                    } else {
                        assert(self.entries@[i] == e);
                    }
                }
                assert forall|w: usize| #[trigger] in_range(w, lo, (v + 1) as usize) implies {
                    &&& self.view()[w].1 == flags
                    &&& old(frames).is_free(self.view()[w].0)
                    &&& !frames.is_free(self.view()[w].0)
                } by {
                    if w != v {
                        assert(in_range(w, lo, v));
                        assert(self.view()[w] == before[w]);
                        assert(!f0.is_free(before[w].0));
                    } else {
                        assert(self.view()[w] == (p, flags));
                        assert(f0.is_free(p));
                    }
                }
                let m1 = self.view();
                let v1 = (v + 1) as usize;
                assert forall|q: usize| #[trigger] frames.is_free(q) <==> (old(frames).is_free(q) && !backs_range(m1, lo, v1, q)) by {
                    if frames.is_free(q) {
                        assert(f0.is_free(q) && q != p);
                        assert(!backs_range(before, lo, v, q));
                        if backs_range(m1, lo, v1, q) {
                            let w = choose|w: usize| #[trigger] in_range(w, lo, v1) && m1.contains_key(w) && m1[w].0 == q;
                            if w != v {
                                assert(in_range(w, lo, v) && before.contains_key(w) && before[w].0 == q);
                            }
                        }
                    }
                    if old(frames).is_free(q) && !backs_range(m1, lo, v1, q) {
                        if backs_range(before, lo, v, q) {
                            let w = choose|w: usize| #[trigger] in_range(w, lo, v) && before.contains_key(w) && before[w].0 == q;
                            assert(in_range(w, lo, v1) && m1.contains_key(w) && m1[w].0 == q);
                        }
                        assert(in_range(v, lo, v1) && m1.contains_key(v) && m1[v].0 == p);
                        assert(q != p);
                    }
                }
                assert forall|a: usize, b: usize|
                    #![trigger in_range(a, lo, v1), in_range(b, lo, v1)]
                    in_range(a, lo, v1) && in_range(b, lo, v1) && a != b implies m1[a].0 != m1[b].0 by {
                    if a != v && b != v {
                        assert(in_range(a, lo, v) && in_range(b, lo, v));
                    } else if a == v {
                        assert(in_range(b, lo, v));
                        assert(!f0.is_free(before[b].0));
                    } else {
                        assert(in_range(a, lo, v));
                        assert(!f0.is_free(before[a].0));
                    }
                }
            }
            v = v + 1;
        }
        true
    }

    /// Removes the mappings of every page of `[lo, hi)` and hands their
    /// frames back, or does nothing at all: the call fails, changing
    /// nothing, when a page of the range is not mapped.
    pub fn unmap_range(&mut self, frames: &mut FrameAllocator, lo: usize, hi: usize) -> (r: bool)
        requires
            old(self).wf(),
            old(frames).wf(),
            lo <= hi,
        ensures
            final(self).wf(),
            final(frames).wf(),
            final(frames).frame_end() == old(frames).frame_end(),
            r <==> forall|v: usize| in_range(v, lo, hi) ==> #[trigger] old(self).view().contains_key(v),
            !r ==> final(self).view() == old(self).view() && *final(frames) == *old(frames),
            r ==> unmapped(old(self).view(), final(self).view(), *old(frames), *final(frames), lo, hi),
    {
        if hi - lo > self.entries.len() {
            proof {
                self.lemma_range_not_covered(lo, hi);
            }
            return false;
        }
        let mut v: usize = lo;
        while v < hi
            invariant
                lo <= v <= hi,
                self.wf(),
                self == old(self),
                frames.wf(),
                *frames == *old(frames),
                forall|w: usize| in_range(w, lo, v) ==> #[trigger] self.view().contains_key(w),
            decreases hi - v,
        {
            if self.find(v).is_none() {
                return false;
            }
            v = v + 1;
        }
        let ghost s0 = self.entries@;
        let ghost m0 = self.view();
        let mut kept: Vec<PageTableEntry> = Vec::new();
        let mut i: usize = 0;
        while i < self.entries.len()
            invariant
                self.entries@ == s0,
                distinct_vpns(s0),
                forall|k: int| 0 <= k < s0.len() ==> (#[trigger] s0[k]).flags % 2 == 1,
                m0 == entries_view(s0),
                i <= s0.len(),
                distinct_vpns(kept@),
                forall|k: int| 0 <= k < kept@.len() ==> (#[trigger] kept@[k]).flags % 2 == 1,
                entries_view(kept@) == outside_range(entries_view(s0.subrange(0, i as int)), lo, hi),
                frames.wf(),
                frames.frame_end() == old(frames).frame_end(),
                forall|p: usize| #[trigger] old(frames).is_free(p) ==> frames.is_free(p),
                forall|k: int| 0 <= k < i && in_range(s0[k].vpn, lo, hi) && s0[k].ppn < old(frames).frame_end()
                    ==> frames.is_free(#[trigger] s0[k].ppn),
                forall|p: usize| #[trigger] frames.is_free(p) <==> (old(frames).is_free(p)
                    || (freed_prefix(s0, i as int, lo, hi, p) && p < old(frames).frame_end())),
            decreases s0.len() - i,
        {
            let e = self.entries[i];
            let ghost pre = s0.subrange(0, i as int);
            proof {
                assert(s0.subrange(0, i + 1) == pre.push(e));
                assert(distinct_vpns(pre));
                assert forall|k: int| 0 <= k < pre.len() implies (#[trigger] pre[k]).vpn != e.vpn by {
                    assert(pre[k] == s0[k]);
                }
                lemma_push_view(pre, e);
            }
            let ghost kv = entries_view(kept@);
            if lo <= e.vpn && e.vpn < hi {
                let ghost f0 = *frames;
                frames.dealloc_frame(e.ppn);
                proof {
                    assert(entries_view(kept@) =~= outside_range(entries_view(s0.subrange(0, i + 1)), lo, hi));
                    assert forall|k: int| 0 <= k < i + 1 && in_range(s0[k].vpn, lo, hi) && s0[k].ppn < old(frames).frame_end()
                        implies frames.is_free(#[trigger] s0[k].ppn) by {
                        if k < i {
                            assert(f0.is_free(s0[k].ppn));
                        }
                    }
                    assert(e == s0[i as int]);
                    assert forall|p: usize| #[trigger] frames.is_free(p) <==> (old(frames).is_free(p)
                        || (freed_prefix(s0, i + 1, lo, hi, p) && p < old(frames).frame_end())) by {
                        if freed_prefix(s0, i + 1, lo, hi, p) && !freed_prefix(s0, i as int, lo, hi, p) {
                            let k = choose|k: int| 0 <= k < i + 1 && #[trigger] in_range(s0[k].vpn, lo, hi) && s0[k].ppn == p;
                            assert(k == i);
                        }
                        if freed_prefix(s0, i as int, lo, hi, p) {
                            let k = choose|k: int| 0 <= k < i && #[trigger] in_range(s0[k].vpn, lo, hi) && s0[k].ppn == p;
                            assert(0 <= k < i + 1 && in_range(s0[k].vpn, lo, hi));
                        }
                        if p == e.ppn {
                            assert(in_range(s0[i as int].vpn, lo, hi));
                        }
                    }
                }
            } else {
                proof {
                    assert(!kv.contains_key(e.vpn));
                    lemma_push_view(kept@, e);
                }
                let ghost ks = kept@;
                kept.push(e);
                proof {
                    assert(e == s0[i as int]);
                    assert forall|p: usize| freed_prefix(s0, i + 1, lo, hi, p) implies freed_prefix(s0, i as int, lo, hi, p) by {
                        let k = choose|k: int| 0 <= k < i + 1 && #[trigger] in_range(s0[k].vpn, lo, hi) && s0[k].ppn == p;
                        assert(k != i);
                    }
                    assert forall|p: usize| freed_prefix(s0, i as int, lo, hi, p) implies freed_prefix(s0, i + 1, lo, hi, p) by {
                        let k = choose|k: int| 0 <= k < i && #[trigger] in_range(s0[k].vpn, lo, hi) && s0[k].ppn == p;
                        assert(0 <= k < i + 1 && in_range(s0[k].vpn, lo, hi));
                    }
                    assert(entries_view(kept@) =~= outside_range(entries_view(s0.subrange(0, i + 1)), lo, hi));
                    assert forall|k: int| 0 <= k < kept@.len() implies (#[trigger] kept@[k]).flags % 2 == 1 by {
                        if k < ks.len() {
                            assert(kept@[k] == ks[k]);
                        }
                    }
                }
            }
            i = i + 1;
        }
        proof {
            assert(s0.subrange(0, s0.len() as int) == s0);
            assert forall|w: usize| #[trigger] in_range(w, lo, hi) && m0[w].0 < old(frames).frame_end()
                implies frames.is_free(m0[w].0) by {
                assert(m0.contains_key(w));
                let k = choose|k: int| 0 <= k < s0.len() && (#[trigger] s0[k]).vpn == w;
                lemma_view_at(s0, k);
            }
            assert forall|p: usize| freed_prefix(s0, s0.len() as int, lo, hi, p) <==> backs_range(m0, lo, hi, p) by {
                if freed_prefix(s0, s0.len() as int, lo, hi, p) {
                    let k = choose|k: int| 0 <= k < s0.len() && #[trigger] in_range(s0[k].vpn, lo, hi) && s0[k].ppn == p;
                    lemma_view_at(s0, k);
                    assert(in_range(s0[k].vpn, lo, hi) && m0.contains_key(s0[k].vpn) && m0[s0[k].vpn].0 == p);
                }
                if backs_range(m0, lo, hi, p) {
                    let w = choose|w: usize| #[trigger] in_range(w, lo, hi) && m0.contains_key(w) && m0[w].0 == p;
                    let k = choose|k: int| 0 <= k < s0.len() && (#[trigger] s0[k]).vpn == w;
                    lemma_view_at(s0, k);
                    assert(0 <= k < s0.len() && in_range(s0[k].vpn, lo, hi) && s0[k].ppn == p);
                }
            }
        }
        self.entries = kept;
        true
    }

    /// A range with more pages than there are mappings holds an unmapped page.
    proof fn lemma_range_not_covered(&self, lo: usize, hi: usize)
        requires
            self.wf(),
            lo <= hi,
            hi - lo > self.entries@.len(),
        ensures
            !(forall|v: usize| in_range(v, lo, hi) ==> #[trigger] self.view().contains_key(v)),
    {
        self.lemma_len();
        let r = <usize as vstd::set_lib::FiniteRange>::range_set(lo, hi);
        <usize as vstd::set_lib::FiniteRange>::range_properties(lo, hi);
        if forall|v: usize| in_range(v, lo, hi) ==> #[trigger] self.view().contains_key(v) {
            assert forall|v: usize| r.contains(v) implies self.view().dom().contains(v) by {
                assert(in_range(v, lo, hi));
            }
            vstd::set_lib::lemma_len_subset(r, self.view().dom());
        }
    }

    /// Removes every mapping and hands all frames back.
    pub fn release(&mut self, frames: &mut FrameAllocator)
        requires
            old(self).wf(),
            old(frames).wf(),
        ensures
            final(self).wf(),
            final(self).view() == Map::<usize, (usize, u8)>::empty(),
            final(frames).wf(),
            final(frames).frame_end() == old(frames).frame_end(),
            forall|p: usize| #[trigger] old(frames).is_free(p) ==> final(frames).is_free(p),
            forall|v: usize| #[trigger] old(self).view().contains_key(v) && old(self).view()[v].0 < old(frames).frame_end()
                ==> final(frames).is_free(old(self).view()[v].0),
            forall|p: usize| #[trigger] final(frames).is_free(p) <==> (old(frames).is_free(p)
                || (maps_frame(old(self).view(), p) && p < old(frames).frame_end())),
    {
        let ghost s0 = self.entries@;
        let mut i: usize = 0;
        while i < self.entries.len()
            invariant
                self.entries@ == s0,
                self.wf(),
                *self == *old(self),
                i <= s0.len(),
                frames.wf(),
                frames.frame_end() == old(frames).frame_end(),
                forall|p: usize| #[trigger] old(frames).is_free(p) ==> frames.is_free(p),
                forall|k: int| 0 <= k < i && s0[k].ppn < old(frames).frame_end() ==> frames.is_free(#[trigger] s0[k].ppn),
                forall|p: usize| #[trigger] frames.is_free(p) <==> (old(frames).is_free(p)
                    || (released_prefix(s0, i as int, p) && p < old(frames).frame_end())),
            decreases s0.len() - i,
        {
            let ghost f0 = *frames;
            frames.dealloc_frame(self.entries[i].ppn);
            proof {
                assert forall|p: usize| #[trigger] frames.is_free(p) <==> (old(frames).is_free(p)
                    || (released_prefix(s0, i + 1, p) && p < old(frames).frame_end())) by {
                    if released_prefix(s0, i + 1, p) && !released_prefix(s0, i as int, p) {
                        let k = choose|k: int| 0 <= k < i + 1 && (#[trigger] s0[k]).ppn == p;
                        assert(k == i);
                    }
                    if released_prefix(s0, i as int, p) {
                        let k = choose|k: int| 0 <= k < i && (#[trigger] s0[k]).ppn == p;
                        assert(0 <= k < i + 1 && s0[k].ppn == p);
                    }
                    if p == s0[i as int].ppn {
                        assert(0 <= i < i + 1 && s0[i as int].ppn == p);
                    }
                }
                assert forall|k: int| 0 <= k < i + 1 && s0[k].ppn < old(frames).frame_end() implies frames.is_free(#[trigger] s0[k].ppn) by {
                    if k < i {
                        assert(f0.is_free(s0[k].ppn));
                    }
                }
            }
            i = i + 1;
        }
        proof {
            assert forall|v: usize| #[trigger] old(self).view().contains_key(v) && old(self).view()[v].0 < old(frames).frame_end()
                implies frames.is_free(old(self).view()[v].0) by {
                let k = choose|k: int| 0 <= k < s0.len() && (#[trigger] s0[k]).vpn == v;
                lemma_view_at(s0, k);
            }
            let m0 = old(self).view();
            assert forall|p: usize| released_prefix(s0, s0.len() as int, p) <==> maps_frame(m0, p) by {
                if released_prefix(s0, s0.len() as int, p) {
                    let k = choose|k: int| 0 <= k < s0.len() && (#[trigger] s0[k]).ppn == p;
                    lemma_view_at(s0, k);
                    assert(m0.contains_key(s0[k].vpn) && m0[s0[k].vpn].0 == p);
                }
                if maps_frame(m0, p) {
                    let w = choose|w: usize| #[trigger] m0.contains_key(w) && m0[w].0 == p;
                    let k = choose|k: int| 0 <= k < s0.len() && (#[trigger] s0[k]).vpn == w;
                    lemma_view_at(s0, k);
                    assert(0 <= k < s0.len() && s0[k].ppn == p);
                }
            }
        }
        self.entries = Vec::new();
        assert(self.view() =~= Map::<usize, (usize, u8)>::empty());
    }
}

/// The user buffer `[va, va + len)` runs past the address range or
/// touches a page that `m` does not map.
pub open spec fn buffer_faults(m: Map<usize, (usize, u8)>, va: usize, len: usize) -> bool {
    va + len > usize::MAX || exists|v: usize|
        page_of(va as int) <= v <= page_of(va + len) && v * PAGE_SIZE < va + len && !(#[trigger] m.contains_key(v))
}

/// `s` lists the pieces of the user buffer `[va, va + len)` in order, each
/// with the frame that `m` maps its page to.
pub open spec fn pieces_of(m: Map<usize, (usize, u8)>, va: usize, len: usize, s: Seq<Segment>) -> bool {
    &&& va + len <= usize::MAX
    &&& piece_start(va as int, va + len, s.len()) == va + len
    &&& forall|k: int| 0 <= k < s.len() ==> {
        let a = #[trigger] piece_start(va as int, va + len, k as nat);
        &&& a < va + len
        &&& m.contains_key(page_of(a) as usize)
        &&& s[k].ppn == m[page_of(a) as usize].0
        &&& s[k].offset == offset_in_page(a)
        &&& s[k].len == piece_len(a, va + len)
    }
}

/// Walks the page table of `space` over the user buffer `[va, va + len)`
/// and returns its pieces, in order, each within one frame. `None` when the
/// buffer runs past the address range or touches an unmapped page.
pub fn translated_byte_buffer(space: &AddressSpace, va: usize, len: usize) -> (r: Option<Vec<Segment>>)
    requires
        space.wf(),
    ensures
        r.is_none() ==> buffer_faults(space.view(), va, len),
        r.is_some() ==> pieces_of(space.view(), va, len, r.unwrap()@),
{
    let end = match va.checked_add(len) {
        Some(e) => e,
        None => {
            return None;
        },
    };
    let mut out: Vec<Segment> = Vec::new();
    let mut cur: usize = va;
    while cur < end
        invariant
            va <= cur <= end,
            end == va + len,
            space.wf(),
            cur == piece_start(va as int, end as int, out@.len()),
            forall|k: int| 0 <= k < out@.len() ==> {
                let a = #[trigger] piece_start(va as int, end as int, k as nat);
                &&& a < end
                &&& space.view().contains_key(page_of(a) as usize)
                &&& out@[k].ppn == space.view()[page_of(a) as usize].0
                &&& out@[k].offset == offset_in_page(a)
                &&& out@[k].len == piece_len(a, end as int)
            },
        decreases end - cur,
    {
        let page = cur / PAGE_SIZE;
        let offset = cur % PAGE_SIZE;
        let rest = PAGE_SIZE - offset;
        let n = if rest < end - cur {
            rest
        } else {
            end - cur
        };
        match space.translate(page) {
            Some(e) => {
                let ghost k = out@.len();
                out.push(Segment { ppn: e.ppn, offset, len: n });
                proof {
                    assert forall|j: int| 0 <= j < out@.len() implies {
                        let a = #[trigger] piece_start(va as int, end as int, j as nat);
                        &&& a < end
                        &&& space.view().contains_key(page_of(a) as usize)
                        &&& out@[j].ppn == space.view()[page_of(a) as usize].0
                        &&& out@[j].offset == offset_in_page(a)
                        &&& out@[j].len == piece_len(a, end as int)
                    } by {
                        if j < k {
                            
                        }
                    }
                }
                cur = cur + n;
            },
            None => {
                proof {
                    vstd::arithmetic::div_mod::lemma_div_is_ordered(va as int, cur as int, PAGE_SIZE as int);
                    vstd::arithmetic::div_mod::lemma_div_is_ordered(cur as int, end as int, PAGE_SIZE as int);
                    vstd::arithmetic::div_mod::lemma_fundamental_div_mod(cur as int, PAGE_SIZE as int);
                    assert(page * PAGE_SIZE <= cur) by (nonlinear_arith)
                        requires
                            page == page_of(cur as int),
                            cur == PAGE_SIZE * page_of(cur as int) + offset_in_page(cur as int),
                            offset_in_page(cur as int) >= 0;
                    assert(!space.view().contains_key(page));
                }
                return None;
            },
        }
    }
    Some(out)
}

/// No two pages of `m` share a frame.
pub open spec fn frames_distinct(m: Map<usize, (usize, u8)>) -> bool {
    forall|v: usize, w: usize|
        #![trigger m.contains_key(v), m.contains_key(w)]
        m.contains_key(v) && m.contains_key(w) && v != w ==> m[v].0 != m[w].0
}

/// Every frame of `m` is one that `f` manages and has handed out.
pub open spec fn frames_in_use(m: Map<usize, (usize, u8)>, f: FrameAllocator) -> bool {
    forall|v: usize| #[trigger] m.contains_key(v) ==> !f.is_free(m[v].0) && m[v].0 < f.frame_end()
}

/// `m` owns its frames: each backs exactly one of its pages and is out of
/// the pool `f`.
pub open spec fn owned_by(m: Map<usize, (usize, u8)>, f: FrameAllocator) -> bool {
    frames_distinct(m) && frames_in_use(m, f)
}

/// No frame backs a page of both `a` and `b`.
pub open spec fn frames_disjoint(a: Map<usize, (usize, u8)>, b: Map<usize, (usize, u8)>) -> bool {
    forall|v: usize, w: usize|
        #![trigger a.contains_key(v), b.contains_key(w)]
        a.contains_key(v) && b.contains_key(w) ==> a[v].0 != b[w].0
}

/// Each address space of `vs` owns its frames, and no two share one.
pub open spec fn spaces_exclusive(vs: Seq<Map<usize, (usize, u8)>>, f: FrameAllocator) -> bool {
    &&& forall|i: int| 0 <= i < vs.len() ==> owned_by(#[trigger] vs[i], f)
    &&& forall|i: int, j: int|
        #![trigger vs[i], vs[j]]
        0 <= i < vs.len() && 0 <= j < vs.len() && i != j ==> frames_disjoint(vs[i], vs[j])
}

/// `m` shares no frame with any address space of `vs`.
pub open spec fn apart_from_all(m: Map<usize, (usize, u8)>, vs: Seq<Map<usize, (usize, u8)>>) -> bool {
    forall|i: int| 0 <= i < vs.len() ==> frames_disjoint(m, #[trigger] vs[i])
}

/// Sharing no frame is symmetric.
pub proof fn lemma_disjoint_symmetric(a: Map<usize, (usize, u8)>, b: Map<usize, (usize, u8)>)
    requires
        frames_disjoint(a, b),
    ensures
        frames_disjoint(b, a),
{
    assert forall|v: usize, w: usize| #![trigger b.contains_key(v), a.contains_key(w)]
        b.contains_key(v) && a.contains_key(w) implies b[v].0 != a[w].0 by {
        assert(a.contains_key(w) && b.contains_key(v));
    }
}

/// Taking one address space out of an exclusive collection: the rest stay
/// exclusive and the one taken shares no frame with them.
pub proof fn lemma_spaces_remove(vs: Seq<Map<usize, (usize, u8)>>, f: FrameAllocator, i: int)
    requires
        spaces_exclusive(vs, f),
        0 <= i < vs.len(),
    ensures
        spaces_exclusive(vs.remove(i), f),
        owned_by(vs[i], f),
        apart_from_all(vs[i], vs.remove(i)),
{
    let ws = vs.remove(i);
    assert forall|a: int| 0 <= a < ws.len() implies owned_by(#[trigger] ws[a], f) by {
        if a < i {
            assert(ws[a] == vs[a]);
        } else {
            assert(ws[a] == vs[a + 1]);
        }
    }
    assert forall|a: int, b: int| #![trigger ws[a], ws[b]]
        0 <= a < ws.len() && 0 <= b < ws.len() && a != b implies frames_disjoint(ws[a], ws[b]) by {
        let a0 = if a < i { a } else { a + 1 };
        let b0 = if b < i { b } else { b + 1 };
        assert(ws[a] == vs[a0] && ws[b] == vs[b0]);
        assert(frames_disjoint(vs[a0], vs[b0]));
    }
    assert forall|a: int| 0 <= a < ws.len() implies frames_disjoint(vs[i], #[trigger] ws[a]) by {
        let a0 = if a < i { a } else { a + 1 };
        assert(ws[a] == vs[a0]);
        assert(frames_disjoint(vs[i], vs[a0]));
    }
}

/// Adding an address space that owns its frames and shares none.
pub proof fn lemma_spaces_push(vs: Seq<Map<usize, (usize, u8)>>, f: FrameAllocator, m: Map<usize, (usize, u8)>)
    requires
        spaces_exclusive(vs, f),
        owned_by(m, f),
        apart_from_all(m, vs),
    ensures
        spaces_exclusive(vs.push(m), f),
{
    let ws = vs.push(m);
    assert forall|a: int| 0 <= a < ws.len() implies owned_by(#[trigger] ws[a], f) by {
        if a < vs.len() {
            assert(ws[a] == vs[a]);
        }
    }
    assert forall|a: int, b: int| #![trigger ws[a], ws[b]]
        0 <= a < ws.len() && 0 <= b < ws.len() && a != b implies frames_disjoint(ws[a], ws[b]) by {
        if a < vs.len() && b < vs.len() {
            assert(ws[a] == vs[a] && ws[b] == vs[b]);
        } else if a < vs.len() {
            assert(ws[a] == vs[a] && ws[b] == m);
            assert(frames_disjoint(m, vs[a]));
            lemma_disjoint_symmetric(m, vs[a]);
        } else {
            assert(ws[b] == vs[b] && ws[a] == m);
            assert(frames_disjoint(m, vs[b]));
        }
    }
}

/// The pool changed only by frames of `m`, which the others do not use,
/// coming back or by frames leaving: the others still own theirs.
pub proof fn lemma_spaces_pool(
    vs: Seq<Map<usize, (usize, u8)>>,
    f0: FrameAllocator,
    f1: FrameAllocator,
    m: Map<usize, (usize, u8)>,
)
    requires
        spaces_exclusive(vs, f0),
        apart_from_all(m, vs),
        f1.frame_end() == f0.frame_end(),
        forall|p: usize| #[trigger] f1.is_free(p) ==> f0.is_free(p) || maps_frame(m, p),
    ensures
        spaces_exclusive(vs, f1),
{
    assert forall|a: int| 0 <= a < vs.len() implies owned_by(#[trigger] vs[a], f1) by {
        let x = vs[a];
        assert(owned_by(x, f0));
        assert forall|v: usize| #[trigger] x.contains_key(v) implies !f1.is_free(x[v].0) && x[v].0 < f1.frame_end() by {
            if f1.is_free(x[v].0) {
                assert(!f0.is_free(x[v].0));
                let w = choose|w: usize| #[trigger] m.contains_key(w) && m[w].0 == x[v].0;
                assert(frames_disjoint(m, x));
                assert(m.contains_key(w) && x.contains_key(v));
            }
        }
    }
}

/// After a successful `map_range` on `m0`, the new map owns its frames and
/// shares none with the others.
pub proof fn lemma_owned_after_map(
    m0: Map<usize, (usize, u8)>,
    m1: Map<usize, (usize, u8)>,
    f0: FrameAllocator,
    f1: FrameAllocator,
    vs: Seq<Map<usize, (usize, u8)>>,
    lo: usize,
    hi: usize,
    flags: u8,
)
    requires
        f0.wf(),
        f1.frame_end() == f0.frame_end(),
        owned_by(m0, f0),
        apart_from_all(m0, vs),
        spaces_exclusive(vs, f0),
        mapped_fresh(m0, m1, f0, f1, lo, hi, flags),
    ensures
        owned_by(m1, f1),
        apart_from_all(m1, vs),
{
    assert forall|v: usize| #[trigger] m1.contains_key(v) implies !f1.is_free(m1[v].0) && m1[v].0 < f1.frame_end() by {
        if m0.contains_key(v) {
            assert(!f0.is_free(m0[v].0));
        } else {
            assert(in_range(v, lo, hi));
            f0.lemma_free_below_end(m1[v].0);
        }
    }
    assert forall|v: usize, w: usize| #![trigger m1.contains_key(v), m1.contains_key(w)]
        m1.contains_key(v) && m1.contains_key(w) && v != w implies m1[v].0 != m1[w].0 by {
        if m0.contains_key(v) && m0.contains_key(w) {
        } else if m0.contains_key(v) {
            assert(in_range(w, lo, hi));
            assert(!f0.is_free(m0[v].0));
        } else if m0.contains_key(w) {
            assert(in_range(v, lo, hi));
            assert(!f0.is_free(m0[w].0));
        } else {
            assert(in_range(v, lo, hi) && in_range(w, lo, hi));
        }
    }
    assert forall|i: int| 0 <= i < vs.len() implies frames_disjoint(m1, #[trigger] vs[i]) by {
        let x = vs[i];
        assert(owned_by(x, f0));
        assert(frames_disjoint(m0, x));
        assert forall|v: usize, w: usize| #![trigger m1.contains_key(v), x.contains_key(w)]
            m1.contains_key(v) && x.contains_key(w) implies m1[v].0 != x[w].0 by {
            if !m0.contains_key(v) {
                assert(in_range(v, lo, hi));
                assert(!f0.is_free(x[w].0));
            } else {
                assert(m0.contains_key(v) && x.contains_key(w));
            }
        }
    }
}

/// After a successful `unmap_range` on `m0`, what is left owns its frames
/// and shares none with the others.
pub proof fn lemma_owned_after_unmap(
    m0: Map<usize, (usize, u8)>,
    m1: Map<usize, (usize, u8)>,
    f0: FrameAllocator,
    f1: FrameAllocator,
    vs: Seq<Map<usize, (usize, u8)>>,
    lo: usize,
    hi: usize,
)
    requires
        f1.frame_end() == f0.frame_end(),
        owned_by(m0, f0),
        apart_from_all(m0, vs),
        unmapped(m0, m1, f0, f1, lo, hi),
    ensures
        owned_by(m1, f1),
        apart_from_all(m1, vs),
        forall|p: usize| #[trigger] f1.is_free(p) ==> f0.is_free(p) || maps_frame(m0, p),
{
    assert forall|v: usize| #[trigger] m1.contains_key(v) implies !f1.is_free(m1[v].0) && m1[v].0 < f1.frame_end() by {
        assert(m0.contains_key(v) && !in_range(v, lo, hi));
        assert(!f0.is_free(m0[v].0));
        if backs_range(m0, lo, hi, m1[v].0) {
            let w = choose|w: usize| #[trigger] in_range(w, lo, hi) && m0.contains_key(w) && m0[w].0 == m1[v].0;
            assert(m0.contains_key(v) && m0.contains_key(w) && v != w);
        }
    }
    assert forall|v: usize, w: usize| #![trigger m1.contains_key(v), m1.contains_key(w)]
        m1.contains_key(v) && m1.contains_key(w) && v != w implies m1[v].0 != m1[w].0 by {
        assert(m0.contains_key(v) && m0.contains_key(w));
    }
    assert forall|i: int| 0 <= i < vs.len() implies frames_disjoint(m1, #[trigger] vs[i]) by {
        let x = vs[i];
        assert(frames_disjoint(m0, x));
        assert forall|v: usize, w: usize| #![trigger m1.contains_key(v), x.contains_key(w)]
            m1.contains_key(v) && x.contains_key(w) implies m1[v].0 != x[w].0 by {
            assert(m0.contains_key(v) && x.contains_key(w));
        }
    }
    assert forall|p: usize| #[trigger] f1.is_free(p) implies f0.is_free(p) || maps_frame(m0, p) by {
        if !f0.is_free(p) {
            let w = choose|w: usize| #[trigger] in_range(w, lo, hi) && m0.contains_key(w) && m0[w].0 == p;
            assert(m0.contains_key(w) && m0[w].0 == p);
        }
    }
}

} // verus!
