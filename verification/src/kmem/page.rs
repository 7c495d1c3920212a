use vstd::prelude::*;

verus! {

/// log2 of the page size.
pub const PAGE_ORDER: usize = 12;

/// Size in bytes of one page.
pub const PAGE_SIZE: usize = 4096;

/// Bit of a descriptor's status that marks the page as allocated.
pub open spec fn used_bit(status: u8) -> bool {
    status & 1u8 != 0
}

/// Bit of a descriptor's status that marks the last page of an allocation.
pub open spec fn last_bit(status: u8) -> bool {
    status & 2u8 != 0
}

/// The statuses that the allocator ever writes: empty, used, used and last.
pub open spec fn valid_status(status: u8) -> bool {
    status == 0 || status == 1 || status == 3
}

/// On the statuses that the allocator writes, the used bit is set exactly on
/// the non-empty ones and the last bit exactly on `3`.
pub proof fn lemma_status_bits(status: u8)
    requires
        valid_status(status),
    ensures
        used_bit(status) <==> status != 0,
        last_bit(status) <==> status == 3,
        status | 1u8 == (if status == 0 { 1u8 } else { status }),
        status | 1u8 | 2u8 == 3u8,
{
    assert(0u8 & 1u8 == 0u8 && 0u8 & 2u8 == 0u8 && 0u8 | 1u8 == 1u8 && 0u8 | 1u8 | 2u8 == 3u8)
        by (bit_vector);
    assert(1u8 & 1u8 == 1u8 && 1u8 & 2u8 == 0u8 && 1u8 | 1u8 == 1u8 && 1u8 | 1u8 | 2u8 == 3u8)
        by (bit_vector);
    assert(3u8 & 1u8 == 1u8 && 3u8 & 2u8 == 2u8 && 3u8 | 1u8 == 3u8 && 3u8 | 1u8 | 2u8 == 3u8)
        by (bit_vector);
}

/// The flags of a page descriptor.
#[derive(Clone, Copy, Debug, PartialEq, Eq)]
pub enum PageStatus {
    Empty,
    Used,
    Last,
}

/// The bit pattern of each flag.
pub open spec fn status_value(s: PageStatus) -> u8 {
    match s {
        PageStatus::Empty => 0,
        PageStatus::Used => 1,
        PageStatus::Last => 2,
    }
}

impl PageStatus {
    /// The flag's bit pattern: 0 for `Empty`, 1 for `Used`, 2 for `Last`.
    pub fn val(self) -> (r: u8)
        ensures
            r == status_value(self),
    {
        match self {
            PageStatus::Empty => 0,
            PageStatus::Used => 1,
            PageStatus::Last => 2,
        }
    }
}

/// One byte of the descriptor table: the status of one page.
#[derive(Clone, Copy, Debug, PartialEq, Eq)]
pub struct MemoryPage {
    pub status: u8,
}

impl MemoryPage {
    /// Marks the page empty.
    pub fn clear(&mut self)
        ensures
            final(self).status == 0,
    {
        self.status = PageStatus::Empty.val();
    }

    /// Whether no flag at all is set.
    pub fn is_empty(&self) -> (r: bool)
        ensures
            r == (self.status == 0),
    {
        self.status == PageStatus::Empty.val()
    }

    /// Whether the used bit is set.
    pub fn is_used(&self) -> (r: bool)
        ensures
            r == used_bit(self.status),
    {
        self.status & PageStatus::Used.val() != 0
    }

    /// Whether the last bit is set.
    pub fn is_last(&self) -> (r: bool)
        ensures
            r == last_bit(self.status),
    {
        self.status & PageStatus::Last.val() != 0
    }

    /// Adds the bits of `status` to the page's status.
    pub fn update_status(&mut self, status: PageStatus)
        ensures
            final(self).status == old(self).status | status_value(status),
    {
        self.status = self.status | status.val();
    }
}

/// Rounds `v` up to the next multiple of `2^order`: the result has its low
/// `order` bits clear and lies in `v ..= v + 2^order - 1`.
pub fn align_roundup(v: usize, order: usize) -> (r: usize)
    requires
        order < usize::BITS,
        v + ((1usize << order) - 1) <= usize::MAX,
    ensures
        r & (((1usize << order) - 1) as usize) == 0,
        v <= r,
        r <= v + ((1usize << order) - 1),
{
    assert(1usize << order >= 1usize) by (bit_vector)
        requires
            order < usize::BITS,
    ;
    let o = (1usize << order) - 1;
    assert((v + o) as usize == v + o);
    let r = (v + o) & !o;
    assert(r & o == 0usize && v <= r && r <= v + o) by (bit_vector)
        requires
            (v + o) as usize == v + o,
            r == ((v + o) as usize) & !o,
    ;
    r
}

/// A table whose every status is one the allocator writes, and whose last
/// page is never a used page that is not the last of its allocation: so a
/// walk along an allocation that starts inside the table ends inside it.
pub open spec fn table_wf(s: Seq<u8>) -> bool {
    &&& forall|j: int| 0 <= j < s.len() ==> valid_status(#[trigger] s[j])
    &&& s.len() > 0 ==> s[s.len() - 1] != 1
}

/// The `k` pages from `i` can be handed out: the first is empty and none of
/// them has the used bit.
pub open spec fn free_run(s: Seq<u8>, i: int, k: int) -> bool {
    &&& s[i] == 0
    &&& forall|j: int| i <= j < i + k ==> !used_bit(#[trigger] s[j])
}

/// The table after `k` pages from `i` were handed out as one allocation: the
/// used bit added to each of them, and the last bit to the final one.
pub open spec fn or_marked(s: Seq<u8>, i: int, k: int) -> Seq<u8> {
    Seq::new(
        s.len(),
        |j: int|
            if i <= j < i + k - 1 {
                s[j] | 1u8
            } else if j == i + k - 1 {
                s[j] | 1u8 | 2u8
            } else {
                s[j]
            },
    )
}

/// The table with the `k` pages from `i` made one allocation: used, and the
/// final one also last.
pub open spec fn mark_run(s: Seq<u8>, i: int, k: int) -> Seq<u8> {
    Seq::new(
        s.len(),
        |j: int|
            if i <= j < i + k - 1 {
                1u8
            } else if j == i + k - 1 {
                3u8
            } else {
                s[j]
            },
    )
}

/// Marking pages keeps a well-formed table well-formed, and on free pages it
/// makes them exactly one allocation.
pub proof fn lemma_or_marked(s: Seq<u8>, i: int, k: int)
    requires
        table_wf(s),
        0 <= i,
        0 < k,
        i + k <= s.len(),
    ensures
        table_wf(or_marked(s, i, k)),
        free_run(s, i, k) ==> or_marked(s, i, k) == mark_run(s, i, k),
{
    let t = or_marked(s, i, k);
    assert forall|j: int| 0 <= j < t.len() implies valid_status(#[trigger] t[j]) by {
        lemma_status_bits(s[j]);
    }
    if free_run(s, i, k) {
        assert forall|j: int| 0 <= j < t.len() implies t[j] == mark_run(s, i, k)[j] by {
            lemma_status_bits(s[j]);
        }
        assert(t =~= mark_run(s, i, k));
    }
    if s.len() > 0 {
        lemma_status_bits(s[s.len() - 1]);
    }
}

/// The page allocator's state: where the descriptor table lies, how many
/// pages it describes, where the pages it hands out begin, and one status
/// byte per page.
pub struct HeapDiagnostics {
    offset: usize,
    max_pages: usize,
    heap_size: usize,
    alloc_start: usize,
    pages: Vec<MemoryPage>,
}

impl HeapDiagnostics {
    /// The status of each page, in order.
    pub closed spec fn table(&self) -> Seq<u8> {
        Seq::new(self.pages@.len(), |i: int| self.pages@[i].status)
    }

    /// Address of the descriptor table (the start of the heap).
    pub closed spec fn first_descriptor(&self) -> nat {
        self.offset as nat
    }

    /// Number of pages the table describes.
    pub closed spec fn page_count(&self) -> nat {
        self.max_pages as nat
    }

    /// Size of the heap in bytes.
    pub closed spec fn heap_bytes(&self) -> nat {
        self.heap_size as nat
    }

    /// Address of the first page handed out.
    pub closed spec fn alloc_base(&self) -> nat {
        self.alloc_start as nat
    }

    /// The layout constraints: one descriptor per whole page of the heap, and
    /// every address the allocator computes fits in a machine word.
    pub open spec fn fits(&self) -> bool {
        &&& self.table().len() == self.page_count()
        &&& self.page_count() == self.heap_bytes() / (PAGE_SIZE as nat)
        &&& self.first_descriptor() + self.heap_bytes() <= usize::MAX
        &&& self.first_descriptor() + self.page_count() + 4095 + self.page_count() * 4096
            <= usize::MAX
    }

    /// An initialised allocator: the pages begin at the first page boundary
    /// after the table, and the table is well formed.
    pub open spec fn wf(&self) -> bool {
        &&& self.fits()
        &&& self.alloc_base() % 4096 == 0
        &&& self.first_descriptor() + self.page_count() <= self.alloc_base()
        &&& self.alloc_base() <= self.first_descriptor() + self.page_count() + 4095
        &&& table_wf(self.table())
    }

    /// What a report on the table needs: the layout constraints, a well-formed
    /// table, and page addresses that fit in a machine word. Every
    /// initialised allocator has it.
    pub open spec fn report_ready(&self) -> bool {
        &&& self.fits()
        &&& table_wf(self.table())
        &&& self.alloc_base() + self.page_count() * PAGE_SIZE <= usize::MAX
    }

    /// Same heap, same table address, same page area.
    pub open spec fn same_layout(&self, other: &Self) -> bool {
        &&& self.first_descriptor() == other.first_descriptor()
        &&& self.page_count() == other.page_count()
        &&& self.heap_bytes() == other.heap_bytes()
        &&& self.alloc_base() == other.alloc_base()
    }

    /// The allocator over a heap of `heap_size` bytes at `heap_start`, whose
    /// descriptor table currently holds `descriptors`, with `alloc_start` as
    /// the recorded start of the page area.
    pub fn new(heap_start: usize, heap_size: usize, alloc_start: usize, descriptors: &[u8]) -> (h:
        Self)
        requires
            descriptors@.len() == heap_size / PAGE_SIZE,
        ensures
            h.first_descriptor() == heap_start,
            h.heap_bytes() == heap_size,
            h.page_count() == heap_size / PAGE_SIZE,
            h.alloc_base() == alloc_start,
            h.table() == descriptors@,
    {
        let max_pages = heap_size / PAGE_SIZE;
        let mut pages: Vec<MemoryPage> = Vec::new();
        let mut i: usize = 0;
        while i < max_pages
            invariant
                i <= max_pages,
                max_pages == descriptors@.len(),
                pages@.len() == i,
                forall|j: int| 0 <= j < i ==> (#[trigger] pages@[j]).status == descriptors@[j],
            decreases max_pages - i,
        {
            pages.push(MemoryPage { status: descriptors[i] });
            i = i + 1;
        }
        let h = HeapDiagnostics { offset: heap_start, max_pages, heap_size, alloc_start, pages };
        assert(h.table() =~= descriptors@);
        h
    }

    /// Number of pages the table describes.
    pub fn max_pages(&self) -> (r: usize)
        ensures
            r == self.page_count(),
    {
        self.max_pages
    }

    /// Size of the heap in bytes.
    pub fn heap_size(&self) -> (r: usize)
        ensures
            r == self.heap_bytes(),
    {
        self.heap_size
    }

    /// Address of the first page handed out.
    pub fn alloc_start(&self) -> (r: usize)
        ensures
            r == self.alloc_base(),
    {
        self.alloc_start
    }

    /// The status byte of page `i`.
    pub fn status(&self, i: usize) -> (r: u8)
        requires
            self.fits(),
            i < self.page_count(),
        ensures
            r == self.table()[i as int],
    {
        self.pages[i].status
    }

    /// Address of the descriptor table.
    pub fn offset_as_ptr(&self) -> (r: usize)
        ensures
            r == self.first_descriptor(),
    {
        self.offset
    }

    /// Address of the descriptor table, for writing.
    pub fn offset_as_ptr_mut(&self) -> (r: usize)
        ensures
            r == self.first_descriptor(),
    {
        self.offset
    }

    /// Address just past the descriptor table.
    pub fn limit_as_ptr(&self) -> (r: usize)
        requires
            self.fits(),
        ensures
            r == self.first_descriptor() + self.page_count(),
    {
        self.offset + self.max_pages
    }

    /// Address of the page that descriptor `page` describes, where `page` is
    /// one of the table's pages; `None` past the end of the table.
    pub fn page_to_address(&self, page: usize) -> (r: Option<usize>)
        requires
            self.alloc_base() + page * PAGE_SIZE <= usize::MAX,
            self.alloc_base() + self.page_count() * PAGE_SIZE <= usize::MAX,
        ensures
            r == if page < self.page_count() {
                Some((self.alloc_base() + page * PAGE_SIZE) as usize)
            } else {
                None::<usize>
            },
    {
        let address = self.alloc_start + page * PAGE_SIZE;
        if address < self.alloc_start || address >= self.alloc_start + self.max_pages * PAGE_SIZE {
            None
        } else {
            Some(address)
        }
    }

    /// Hands out the `pages` pages from `offset` as one allocation and returns
    /// the address of the first, or 0 where it lies outside the page area.
    pub fn mark_as_used(&mut self, offset: usize, pages: usize) -> (r: usize)
        requires
            old(self).wf(),
            0 < pages,
            offset + pages <= old(self).page_count(),
        ensures
            final(self).wf(),
            final(self).same_layout(old(self)),
            final(self).table() == or_marked(old(self).table(), offset as int, pages as int),
            r == old(self).alloc_base() + offset * PAGE_SIZE,
    {
        let ghost s0 = self.table();
        let mut i: usize = 0;
        while i < pages
            invariant
                i <= pages,
                offset + pages <= self.max_pages,
                self.pages@.len() == self.max_pages,
                self.max_pages == old(self).max_pages,
                self.offset == old(self).offset,
                self.heap_size == old(self).heap_size,
                self.alloc_start == old(self).alloc_start,
                s0 == old(self).table(),
                forall|j: int|
                    0 <= j < self.pages@.len() ==> (#[trigger] self.pages@[j]).status == (if offset
                        <= j < offset + i {
                        s0[j] | 1u8
                    } else {
                        s0[j]
                    }),
            decreases pages - i,
        {
            self.pages[offset + i].update_status(PageStatus::Used);
            i = i + 1;
        }
        self.pages[offset + pages - 1].update_status(PageStatus::Last);
        proof {
            assert(self.table() =~= or_marked(s0, offset as int, pages as int));
            lemma_or_marked(s0, offset as int, pages as int);
        }
        match self.page_to_address(offset) {
            None => 0,
            Some(address) => address,
        }
    }
}

/// Whether none of the `pages` pages from `from` has the used bit.
pub fn page_available(h: &HeapDiagnostics, from: usize, pages: usize) -> (r: bool)
    requires
        h.fits(),
        from + pages <= h.page_count(),
    ensures
        r == (forall|j: int| from <= j < from + pages ==> !used_bit(#[trigger] h.table()[j])),
{
    let mut j: usize = 0;
    while j < pages
        invariant
            h.fits(),
            from + pages <= h.page_count(),
            j <= pages,
            forall|l: int| from <= l < from + j ==> !used_bit(#[trigger] h.table()[l]),
        decreases pages - j,
    {
        if h.pages[from + j].is_used() {
            assert(used_bit(h.table()[(from + j) as int]));
            return false;
        }
        j = j + 1;
    }
    true
}

/// The first page, below `max_pages - pages`, at which `pages` pages can be
/// handed out.
pub fn search_page(pages: usize, h: &HeapDiagnostics) -> (r: Option<usize>)
    requires
        h.fits(),
        pages <= h.page_count(),
    ensures
        match r {
            Some(i) => {
                &&& i < h.page_count() - pages
                &&& free_run(h.table(), i as int, pages as int)
                &&& forall|j: int| 0 <= j < i ==> !free_run(h.table(), j, pages as int)
            },
            None => forall|j: int|
                0 <= j < h.page_count() - pages ==> !free_run(h.table(), j, pages as int),
        },
        match r {
            Some(i) => {
                &&& h.table()[i as int] == 0
                &&& forall|j: int| i <= j < i + pages ==> !used_bit(#[trigger] h.table()[j])
                &&& forall|m: int|
                    0 <= m < i ==> !(h.table()[m] == 0 && forall|j: int|
                        m <= j < m + pages ==> !used_bit(#[trigger] h.table()[j]))
            },
            None => forall|m: int|
                0 <= m < h.page_count() - pages ==> !(h.table()[m] == 0 && forall|j: int|
                    m <= j < m + pages ==> !used_bit(#[trigger] h.table()[j])),
        },
{
    let bound = h.max_pages - pages;
    let mut i: usize = 0;
    while i < bound
        invariant
            h.fits(),
            pages <= h.page_count(),
            bound == h.page_count() - pages,
            i <= bound,
            forall|j: int| 0 <= j < i ==> !free_run(h.table(), j, pages as int),
        decreases bound - i,
    {
        if h.pages[i].is_empty() && page_available(h, i, pages) {
            proof {
                assert forall|m: int| 0 <= m < i implies !(h.table()[m] == 0 && forall|j: int|
                    m <= j < m + pages ==> !used_bit(#[trigger] h.table()[j])) by {
                    assert(!free_run(h.table(), m, pages as int));
                }
            }
            return Some(i);
        }
        i = i + 1;
    }
    proof {
        assert forall|m: int| 0 <= m < bound implies !(h.table()[m] == 0 && forall|j: int|
            m <= j < m + pages ==> !used_bit(#[trigger] h.table()[j])) by {
            assert(!free_run(h.table(), m, pages as int));
        }
    }
    None
}

/// Hands out `pages` contiguous pages, the first run of free pages found
/// below `max_pages - pages`, and returns the address of the first of them;
/// returns 0 where there is none.
pub fn alloc_pages(h: &mut HeapDiagnostics, pages: usize) -> (r: usize)
    requires
        old(h).wf(),
        0 < pages <= old(h).page_count(),
    ensures
        final(h).wf(),
        final(h).same_layout(old(h)),
        r == 0 <==> forall|j: int|
            0 <= j < old(h).page_count() - pages ==> !free_run(old(h).table(), j, pages as int),
        r == 0 ==> final(h).table() == old(h).table(),
        r != 0 ==> exists|i: int|
            {
                &&& 0 <= i < old(h).page_count() - pages
                &&& r == old(h).alloc_base() + i * PAGE_SIZE
                &&& free_run(old(h).table(), i, pages as int)
                &&& forall|j: int| 0 <= j < i ==> !free_run(old(h).table(), j, pages as int)
                &&& final(h).table() == mark_run(old(h).table(), i, pages as int)
            },
        r == 0 <==> forall|m: int|
            0 <= m < old(h).page_count() - pages ==> (#[trigger] old(h).table()[m] != 0 || exists|j: int| m < j < m + pages && #[trigger] old(h).table()[j] != 0),
        r != 0 ==> exists|i: int|
            {
                &&& 0 <= i < old(h).page_count() - pages
                &&& r == old(h).alloc_base() + i * PAGE_SIZE
                &&& #[trigger] old(h).table()[i] == 0
                &&& forall|j: int| i <= j < i + pages ==> #[trigger] old(h).table()[j] == 0
                &&& forall|m: int|
                    0 <= m < i ==> (#[trigger] old(h).table()[m] != 0 || exists|j: int| m < j < m + pages && #[trigger] old(h).table()[j] != 0)
                &&& final(h).table().len() == old(h).table().len()
                &&& forall|j: int|
                    0 <= j < old(h).table().len() ==> #[trigger] final(h).table()[j] == if i <= j
                        < i + pages - 1 {
                        1u8
                    } else if j == i + pages - 1 {
                        3u8
                    } else {
                        old(h).table()[j]
                    }
            },
{
    let ghost s0 = h.table();
    let ghost bound = h.page_count() - pages;
    match search_page(pages, h) {
        None => {
            proof {
                assert forall|m: int| 0 <= m < bound implies (#[trigger] s0[m] != 0 || exists|j: int| m < j < m + pages && #[trigger] s0[j] != 0) by {
                    lemma_free_run_empty(s0, m, pages as int);
                }
            }
            0
        },
        Some(p) => {
            proof {
                lemma_or_marked(s0, p as int, pages as int);
                lemma_free_run_empty(s0, p as int, pages as int);
                assert forall|m: int| 0 <= m < p implies (#[trigger] s0[m] != 0 || exists|j: int| m < j < m + pages && #[trigger] s0[j] != 0) by {
                    lemma_free_run_empty(s0, m, pages as int);
                }
                assert(!(forall|m: int|
                    0 <= m < bound ==> (#[trigger] s0[m] != 0 || exists|j: int| m < j < m + pages && #[trigger] s0[j] != 0))) by {
                    if forall|m: int|
                        0 <= m < bound ==> (#[trigger] s0[m] != 0 || exists|j: int| m < j < m + pages && #[trigger] s0[j] != 0) {
                        let j = choose|j: int| p <= j < p + pages && #[trigger] s0[j] != 0;
                    }
                }
            }
            let r = h.mark_as_used(p, pages);
            assert(r != 0);
            assert(h.table() == mark_run(s0, p as int, pages as int));
            r
        },
    }
}

/// In a well-formed table, `k` pages from `i` can be handed out exactly when
/// every one of them is empty.
pub proof fn lemma_free_run_empty(s: Seq<u8>, i: int, k: int)
    requires
        table_wf(s),
        0 <= i,
        0 < k,
        i + k <= s.len(),
    ensures
        free_run(s, i, k) <==> forall|j: int| i <= j < i + k ==> #[trigger] s[j] == 0,
{
    assert forall|j: int| i <= j < i + k implies (!used_bit(s[j]) <==> s[j] == 0) by {
        lemma_status_bits(s[j]);
    }
}

/// Allocation is first fit over the status bytes: whatever an allocation
/// of `k` pages on table `s` answers under its contract, a non-null answer is
/// the address of the lowest page `i`, below `len - k`, from which `k` pages
/// are all empty; every lower start meets a non-empty page; the answer is
/// null exactly when every start below `len - k` meets one. So where the
/// first `k` pages are empty the answer is the page area's start, whatever
/// lies beyond.
pub proof fn law_alloc_first_fit(s: Seq<u8>, base: int, k: int, r: int)
    requires
        table_wf(s),
        0 < k <= s.len(),
        base > 0,
        r == 0 <==> forall|j: int| 0 <= j < s.len() - k ==> !free_run(s, j, k),
        r != 0 ==> exists|i: int|
            {
                &&& 0 <= i < s.len() - k
                &&& r == base + i * PAGE_SIZE
                &&& free_run(s, i, k)
                &&& forall|j: int| 0 <= j < i ==> !free_run(s, j, k)
            },
    ensures
        r == 0 <==> forall|m: int|
            0 <= m < s.len() - k ==> (#[trigger] s[m] != 0 || exists|j: int| m < j < m + k && #[trigger] s[j] != 0),
        r != 0 ==> exists|i: int|
            {
                &&& 0 <= i < s.len() - k
                &&& r == base + i * PAGE_SIZE
                &&& #[trigger] s[i] == 0
                &&& forall|j: int| i <= j < i + k ==> #[trigger] s[j] == 0
                &&& forall|m: int|
                    0 <= m < i ==> (#[trigger] s[m] != 0 || exists|j: int| m < j < m + k && #[trigger] s[j] != 0)
            },
        (forall|j: int| 0 <= j < k ==> #[trigger] s[j] == 0) && k < s.len() ==> r == base,
{
    assert forall|m: int| 0 <= m < s.len() - k implies (!free_run(s, m, k) <==> (#[trigger] s[m] != 0 || exists|j: int| m < j < m + k && #[trigger] s[j] != 0)) by {
        lemma_free_run_empty(s, m, k);
    }
    if r != 0 {
        let i = choose|i: int|
            {
                &&& 0 <= i < s.len() - k
                &&& r == base + i * PAGE_SIZE
                &&& free_run(s, i, k)
                &&& forall|j: int| 0 <= j < i ==> !free_run(s, j, k)
            };
        lemma_free_run_empty(s, i, k);
        if (forall|j: int| 0 <= j < k ==> #[trigger] s[j] == 0) && k < s.len() {
            lemma_free_run_empty(s, 0, k);
            assert(i == 0);
        }
    } else {
        if (forall|j: int| 0 <= j < k ==> #[trigger] s[j] == 0) && k < s.len() {
            lemma_free_run_empty(s, 0, k);
            assert(free_run(s, 0, k));
        }
    }
}

/// Clears every descriptor and places the page area at the first page
/// boundary after the table.
pub fn init(h: &mut HeapDiagnostics)
    requires
        old(h).fits(),
    ensures
        final(h).wf(),
        final(h).first_descriptor() == old(h).first_descriptor(),
        final(h).page_count() == old(h).page_count(),
        final(h).heap_bytes() == old(h).heap_bytes(),
        final(h).alloc_base() % 4096 == 0,
        old(h).first_descriptor() + old(h).page_count() <= final(h).alloc_base(),
        final(h).alloc_base() <= old(h).first_descriptor() + old(h).page_count() + 4095,
        final(h).table() == Seq::new(old(h).page_count(), |i: int| 0u8),
{
    let n = h.max_pages;
    let mut i: usize = 0;
    while i < n
        invariant
            i <= n,
            n == h.max_pages,
            h.pages@.len() == n,
            h.offset == old(h).offset,
            h.heap_size == old(h).heap_size,
            h.max_pages == old(h).max_pages,
            forall|j: int| 0 <= j < i ==> (#[trigger] h.pages@[j]).status == 0,
        decreases n - i,
    {
        h.pages[i].clear();
        i = i + 1;
    }
    assert(1usize << 12usize == 4096usize) by (bit_vector);
    let start = align_roundup(h.offset + h.max_pages, PAGE_ORDER);
    assert(start % 4096 == 0) by (bit_vector)
        requires
            start & 4095usize == 0usize,
    ;
    h.alloc_start = start;
    assert(h.table() =~= Seq::new(n as nat, |i: int| 0u8));
}

/// The first index at or after `i` whose page is not a used page in the
/// middle of an allocation: where a walk along an allocation from `i` stops.
pub open spec fn run_end(s: Seq<u8>, i: int) -> int
    decreases s.len() - i,
{
    if 0 <= i < s.len() && s[i] == 1 {
        run_end(s, i + 1)
    } else {
        i
    }
}

/// The table with the pages `a..b` cleared.
pub open spec fn zero_range(s: Seq<u8>, a: int, b: int) -> Seq<u8> {
    Seq::new(s.len(), |j: int| if a <= j < b { 0u8 } else { s[j] })
}

/// In a well-formed table, a walk from a page of the table stops inside the
/// table, and every page it passes is a used page in the middle of an
/// allocation.
pub proof fn lemma_run_end(s: Seq<u8>, i: int)
    requires
        table_wf(s),
        0 <= i < s.len(),
    ensures
        i <= run_end(s, i) < s.len(),
        s[run_end(s, i)] != 1,
        forall|j: int| i <= j < run_end(s, i) ==> s[j] == 1,
    decreases s.len() - i,
{
    if s[i] == 1 {
        lemma_run_end(s, i + 1);
    }
}

/// Clearing part of a well-formed table keeps it well formed.
pub proof fn lemma_zero_range_wf(s: Seq<u8>, a: int, b: int)
    requires
        table_wf(s),
    ensures
        table_wf(zero_range(s, a, b)),
{
    let t = zero_range(s, a, b);
    assert forall|j: int| 0 <= j < t.len() implies valid_status(#[trigger] t[j]) by {}
}

/// Where a give-back took place.
#[derive(Clone, Copy, Debug, PartialEq, Eq)]
pub enum Freed {
    /// The allocation was cleared in the descriptor table.
    InTable,
    /// The address's descriptor lies past the end of the table, at address
    /// `descriptor` in heap memory that the allocator does not keep: the walk
    /// that clears the allocation goes on there, one `free_step` per byte,
    /// starting at `descriptor`. The table is left as it is.
    WalkMemory { descriptor: usize },
}

/// What the free walk does on reaching a descriptor byte.
#[derive(Clone, Copy, Debug, PartialEq, Eq)]
pub enum FreeStep {
    /// A used page that is not the last: clear it and go on to the next byte.
    ClearAndContinue,
    /// A last page: clear it; the allocation is given back.
    ClearAndFinish,
    /// Neither: nothing is cleared, and the give-back is refused as a double free.
    DoubleFree,
}

/// One step of the walk that gives back an allocation, on a descriptor byte
/// of any value: go on over used pages that are not last, stop on a last
/// page, refuse on anything else.
pub fn free_step(status: u8) -> (r: FreeStep)
    ensures
        r == (if used_bit(status) && !last_bit(status) {
            FreeStep::ClearAndContinue
        } else if last_bit(status) {
            FreeStep::ClearAndFinish
        } else {
            FreeStep::DoubleFree
        }),
{
    let page = MemoryPage { status };
    if page.is_used() && !page.is_last() {
        FreeStep::ClearAndContinue
    } else if page.is_last() {
        FreeStep::ClearAndFinish
    } else {
        FreeStep::DoubleFree
    }
}

/// Why a page could not be given back.
#[derive(Clone, Copy, Debug, PartialEq, Eq)]
pub enum DeallocError {
    /// The address was null.
    NullPointer,
    /// The address lies before the page area or beyond the heap's reach.
    PageNotFound,
    /// The page was not in use: it was never handed out or was given back already.
    DoubleFree,
}

/// The number of the page that holds address `p`, counted from the start of
/// the page area.
pub open spec fn page_index(h: &HeapDiagnostics, p: usize) -> int {
    (p - h.alloc_base()) / (PAGE_SIZE as int)
}

impl HeapDiagnostics {
    /// The descriptor of the page that holds address `p`, where `p` lies in
    /// the page area and its page number is below the heap's size in bytes.
    pub fn page_from_address(&self, p: usize) -> (r: Option<usize>)
        ensures
            p < self.alloc_base() ==> r == None::<usize>,
            p >= self.alloc_base() && page_index(self, p) >= self.heap_bytes() ==> r == None::<
                usize,
            >,
            p >= self.alloc_base() && page_index(self, p) < self.heap_bytes() ==> r == Some(
                page_index(self, p) as usize,
            ),
            r matches Some(i) ==> self.alloc_base() + i * PAGE_SIZE <= p < self.alloc_base() + (i
                + 1) * PAGE_SIZE,
            r is Some <==> (p >= self.alloc_base() && p - self.alloc_base() < self.heap_bytes()
                * PAGE_SIZE),
    {
        if p < self.alloc_start {
            return None;
        }
        let page = (p - self.alloc_start) / PAGE_SIZE;
        if page >= self.heap_size {
            None
        } else {
            Some(page)
        }
    }

    /// Gives back the allocation that page `offset` belongs to: clears the
    /// pages from `offset` to the end of the allocation. Where the walk ends
    /// on a page that is not the last of an allocation, the pages walked
    /// over stay cleared and the page is reported as not in use.
    pub fn mark_as_free(&mut self, offset: usize) -> (r: Result<(), DeallocError>)
        requires
            old(self).wf(),
            offset < old(self).page_count(),
        ensures
            final(self).wf(),
            final(self).same_layout(old(self)),
            ({
                let s = old(self).table();
                let e = run_end(s, offset as int);
                if s[e] == 3 {
                    r == Ok::<(), DeallocError>(()) && final(self).table() == zero_range(
                        s,
                        offset as int,
                        e + 1,
                    )
                } else {
                    r == Err::<(), DeallocError>(DeallocError::DoubleFree) && final(self).table()
                        == zero_range(s, offset as int, e)
                }
            }),
    {
        let ghost s0 = self.table();
        proof {
            lemma_run_end(s0, offset as int);
        }
        let ghost e = run_end(s0, offset as int);
        let mut p = offset;
        while self.pages[p].is_used() && !self.pages[p].is_last()
            invariant
                self.pages@.len() == old(self).pages@.len(),
                self.max_pages == old(self).max_pages,
                self.offset == old(self).offset,
                self.heap_size == old(self).heap_size,
                self.alloc_start == old(self).alloc_start,
                s0 == old(self).table(),
                s0.len() == self.pages@.len(),
                s0.len() == self.max_pages,
                table_wf(s0),
                offset <= p <= e < s0.len(),
                run_end(s0, p as int) == e,
                forall|j: int|
                    0 <= j < s0.len() ==> (#[trigger] self.pages@[j]).status == (if offset <= j
                        < p {
                        0u8
                    } else {
                        s0[j]
                    }),
            decreases e - p,
        {
            proof {
                lemma_status_bits(s0[p as int]);
                lemma_run_end(s0, p as int);
            }
            self.pages[p].clear();
            p = p + 1;
        }
        proof {
            lemma_status_bits(s0[p as int]);
        }
        if !self.pages[p].is_last() {
            proof {
                assert(self.table() =~= zero_range(s0, offset as int, e));
                lemma_zero_range_wf(s0, offset as int, e);
            }
            return Err(DeallocError::DoubleFree);
        }
        self.pages[p].clear();
        proof {
            assert(self.table() =~= zero_range(s0, offset as int, e + 1));
            lemma_zero_range_wf(s0, offset as int, e + 1);
        }
        Ok(())
    }
}

/// Gives back the allocation that holds address `p`: the pages from the one
/// holding `p` to the end of its allocation are cleared. Where the page's
/// descriptor lies past the table, the walk is handed on to the caller.
pub fn dealloc_internal(p: usize, h: &mut HeapDiagnostics) -> (r: Result<Freed, DeallocError>)
    requires
        old(h).wf(),
    ensures
        final(h).wf(),
        final(h).same_layout(old(h)),
        dealloc_outcome(old(h), p, r, final(h).table()),
{
    match h.page_from_address(p) {
        None => Err(DeallocError::PageNotFound),
        Some(page) => {
            if page >= h.max_pages {
                Ok(Freed::WalkMemory { descriptor: h.offset + page })
            } else {
                match h.mark_as_free(page) {
                    Ok(()) => Ok(Freed::InTable),
                    Err(e) => Err(e),
                }
            }
        },
    }
}

/// The answer and the new table of giving back address `p`, for every address
/// that is not null.
pub open spec fn dealloc_outcome(
    h: &HeapDiagnostics,
    p: usize,
    r: Result<Freed, DeallocError>,
    t: Seq<u8>,
) -> bool {
    let s = h.table();
    if p < h.alloc_base() || page_index(h, p) >= h.heap_bytes() {
        r == Err::<Freed, DeallocError>(DeallocError::PageNotFound) && t == s
    } else if page_index(h, p) >= h.page_count() {
        r == Ok::<Freed, DeallocError>(
            Freed::WalkMemory { descriptor: (h.first_descriptor() + page_index(h, p)) as usize },
        ) && t == s
    } else {
        let e = run_end(s, page_index(h, p));
        if s[e] == 3 {
            r == Ok::<Freed, DeallocError>(Freed::InTable) && t == zero_range(
                s,
                page_index(h, p),
                e + 1,
            )
        } else {
            r == Err::<Freed, DeallocError>(DeallocError::DoubleFree) && t == zero_range(
                s,
                page_index(h, p),
                e,
            )
        }
    }
}

/// Gives back the allocation that holds address `p`. A null address is
/// refused; otherwise the answer is that of `dealloc_internal`.
pub fn dealloc(h: &mut HeapDiagnostics, p: usize) -> (r: Result<Freed, DeallocError>)
    requires
        old(h).wf(),
    ensures
        final(h).wf(),
        final(h).same_layout(old(h)),
        p == 0 ==> r == Err::<Freed, DeallocError>(DeallocError::NullPointer) && final(h).table()
            == old(h).table(),
        p != 0 ==> dealloc_outcome(old(h), p, r, final(h).table()),
{
    if p == 0 {
        return Err(DeallocError::NullPointer);
    }
    dealloc_internal(p, h)
}

/// Number of pages of the table that are not empty.
pub open spec fn used_count(s: Seq<u8>) -> nat
    decreases s.len(),
{
    if s.len() == 0 {
        0
    } else {
        used_count(s.drop_last()) + if s.last() != 0 {
            1nat
        } else {
            0nat
        }
    }
}

/// Counting the non-empty pages of a prefix one page further.
pub proof fn lemma_used_count_step(s: Seq<u8>, i: int)
    requires
        0 <= i < s.len(),
    ensures
        used_count(s.take(i + 1)) == used_count(s.take(i)) + if s[i] != 0 {
            1nat
        } else {
            0nat
        },
{
    assert(s.take(i + 1).drop_last() =~= s.take(i));
}

/// Over a stretch of empty pages the count of non-empty pages does not grow;
/// over a stretch of non-empty pages it grows by the stretch's length.
pub proof fn lemma_used_count_stretch(s: Seq<u8>, a: int, b: int)
    requires
        0 <= a <= b <= s.len(),
    ensures
        (forall|j: int| a <= j < b ==> s[j] == 0) ==> used_count(s.take(b)) == used_count(
            s.take(a),
        ),
        (forall|j: int| a <= j < b ==> s[j] != 0) ==> used_count(s.take(b)) == used_count(
            s.take(a),
        ) + (b - a),
    decreases b - a,
{
    if a < b {
        lemma_used_count_stretch(s, a, b - 1);
        lemma_used_count_step(s, b - 1);
    }
}

/// One allocation as the usage report shows it.
#[derive(Clone, Copy, Debug, PartialEq, Eq)]
pub struct PageRun {
    /// Number of its first page.
    pub index: usize,
    /// Address of its first page.
    pub address: usize,
    /// Number of pages it spans.
    pub pages: usize,
}

/// `r` is one whole allocation of table `s`: non-empty pages, all but the
/// final one used pages in the middle of an allocation, with no allocation
/// running on into it from before, and ending on a last page, before an empty
/// page or at the end of the table.
pub open spec fn run_ok(s: Seq<u8>, base: int, r: PageRun) -> bool {
    let i = r.index as int;
    let e = r.index + r.pages;
    &&& r.pages > 0
    &&& e <= s.len()
    &&& r.address == base + i * PAGE_SIZE
    &&& forall|j: int| i <= j < e ==> #[trigger] s[j] != 0
    &&& forall|j: int| i <= j < e - 1 ==> #[trigger] s[j] == 1
    &&& i == 0 || s[i - 1] != 1
    &&& e == s.len() || s[e] == 0 || s[e - 1] == 3
}

/// `rs` lists the allocations of table `s` in address order, each whole, and
/// every non-empty page lies in one of them.
pub open spec fn runs_describe(s: Seq<u8>, base: int, rs: Seq<PageRun>) -> bool {
    &&& forall|k: int| 0 <= k < rs.len() ==> run_ok(s, base, #[trigger] rs[k])
    &&& forall|k: int, l: int|
        0 <= k < l < rs.len() ==> #[trigger] rs[k].index + rs[k].pages <= #[trigger] rs[l].index
    &&& forall|j: int|
        0 <= j < s.len() && s[j] != 0 ==> exists|k: int|
            0 <= k < rs.len() && #[trigger] rs[k].index <= j < rs[k].index + rs[k].pages
}

/// Sum of the pages of the listed allocations.
pub open spec fn total_pages(rs: Seq<PageRun>) -> nat
    decreases rs.len(),
{
    if rs.len() == 0 {
        0
    } else {
        total_pages(rs.drop_last()) + rs.last().pages as nat
    }
}

/// Where the descriptor table and the page area lie.
#[derive(Clone, Copy, Debug, PartialEq, Eq)]
pub struct HeapLayout {
    pub meta_begin: usize,
    pub meta_end: usize,
    pub phys_begin: usize,
    pub phys_end: usize,
}

/// How many pages, and bytes, are in use and free.
#[derive(Clone, Copy, Debug, PartialEq, Eq)]
pub struct PageUsage {
    pub allocated_pages: usize,
    pub allocated_bytes: usize,
    pub free_pages: usize,
    pub free_bytes: usize,
}

/// The page allocation table as a report: layout, allocations, usage.
#[derive(Debug)]
pub struct PageReport {
    pub layout: HeapLayout,
    pub runs: Vec<PageRun>,
    pub usage: PageUsage,
}

impl HeapDiagnostics {
    /// Number of consecutive empty pages from `offset`, stopping at `limit`;
    /// 0 where `offset` is not below `limit`.
    pub fn skip_empty(&self, offset: usize, limit: usize) -> (n: usize)
        requires
            self.fits(),
            offset <= self.page_count(),
            limit <= self.page_count(),
        ensures
            offset >= limit ==> n == 0,
            offset < limit ==> offset + n <= limit,
            forall|j: int| offset <= j < offset + n ==> #[trigger] self.table()[j] == 0,
            offset < limit ==> (offset + n == limit || self.table()[offset + n] != 0),
    {
        let mut n: usize = 0;
        let mut p = offset;
        while p < limit
            invariant
                self.fits(),
                offset <= self.page_count(),
                limit <= self.page_count(),
                p == offset + n,
                offset >= limit ==> n == 0,
                offset < limit ==> p <= limit,
                forall|j: int| offset <= j < p ==> #[trigger] self.table()[j] == 0,
            ensures
                p == offset + n,
                offset >= limit ==> n == 0,
                offset < limit ==> p <= limit,
                forall|j: int| offset <= j < p ==> #[trigger] self.table()[j] == 0,
                offset < limit ==> (p == limit || self.table()[p as int] != 0),
            decreases limit - p,
        {
            if self.pages[p].is_empty() {
                p = p + 1;
                n = n + 1;
                continue;
            }
            break;
        }
        n
    }

    /// Number of pages of the allocation at `offset`: used pages counted up
    /// to and including the first last page, stopping at `limit` or before a
    /// page that is not used; 0 where `offset` is not below `limit`.
    pub fn count_used(&self, offset: usize, limit: usize) -> (n: usize)
        requires
            self.fits(),
            offset <= self.page_count(),
            limit <= self.page_count(),
        ensures
            offset >= limit ==> n == 0,
            offset < limit ==> offset + n <= limit,
            forall|j: int| offset <= j < offset + n ==> used_bit(#[trigger] self.table()[j]),
            forall|j: int| offset <= j < offset + n - 1 ==> !last_bit(#[trigger] self.table()[j]),
            offset < limit ==> (offset + n == limit || !used_bit(self.table()[offset + n]) || (n
                > 0 && last_bit(self.table()[offset + n - 1]))),
    {
        let mut n: usize = 0;
        let mut p = offset;
        while p < limit
            invariant_except_break
                p == offset + n,
                forall|j: int| offset <= j < p ==> !last_bit(#[trigger] self.table()[j]),
            invariant
                self.fits(),
                offset <= self.page_count(),
                limit <= self.page_count(),
                offset >= limit ==> n == 0 && p == offset,
                offset < limit ==> offset <= p <= limit && offset + n <= limit,
                forall|j: int| offset <= j < offset + n ==> used_bit(#[trigger] self.table()[j]),
            ensures
                offset >= limit ==> n == 0,
                offset < limit ==> offset + n <= limit,
                forall|j: int| offset <= j < offset + n ==> used_bit(#[trigger] self.table()[j]),
                forall|j: int|
                    offset <= j < offset + n - 1 ==> !last_bit(#[trigger] self.table()[j]),
                offset < limit ==> (offset + n == limit || !used_bit(self.table()[offset + n])
                    || (n > 0 && last_bit(self.table()[offset + n - 1]))),
            decreases limit - p,
        {
            if !self.pages[p].is_used() {
                break;
            }
            n = n + 1;
            if self.pages[p].is_last() {
                break;
            }
            p = p + 1;
        }
        n
    }

    /// Where the descriptor table and the page area lie.
    pub fn print_heap(&self) -> (r: HeapLayout)
        requires
            self.report_ready(),
        ensures
            r.meta_begin == self.first_descriptor(),
            r.meta_end == self.first_descriptor() + self.page_count(),
            r.phys_begin == self.alloc_base(),
            r.phys_end == self.alloc_base() + self.page_count() * PAGE_SIZE,
    {
        HeapLayout {
            meta_begin: self.offset_as_ptr(),
            meta_end: self.limit_as_ptr(),
            phys_begin: self.alloc_start,
            phys_end: self.alloc_start + self.max_pages * PAGE_SIZE,
        }
    }

    /// The allocations of the table in address order, and the number of
    /// pages in use.
    #[verifier::rlimit(50)]
    pub fn print_page_alloc(&self) -> (r: (Vec<PageRun>, usize))
        requires
            self.report_ready(),
        ensures
            runs_describe(self.table(), self.alloc_base() as int, r.0@),
            r.1 == used_count(self.table()),
            r.1 == total_pages(r.0@),
    {
        let ghost s = self.table();
        let limit = self.max_pages;
        let mut runs: Vec<PageRun> = Vec::new();
        let mut n: usize = 0;
        let mut p: usize = 0;
        while p < limit
            invariant
                self.report_ready(),
                s == self.table(),
                limit == s.len(),
                p <= limit,
                n == used_count(s.take(p as int)),
                n == total_pages(runs@),
                p == 0 || s[p - 1] != 1 || (p < limit && s[p as int] == 0),
                forall|k: int| 0 <= k < runs@.len() ==> run_ok(s, self.alloc_base() as int, #[trigger] runs@[k]),
                forall|k: int| 0 <= k < runs@.len() ==> #[trigger] runs@[k].index + runs@[k].pages <= p,
                forall|k: int, l: int|
                    0 <= k < l < runs@.len() ==> #[trigger] runs@[k].index + runs@[k].pages
                        <= #[trigger] runs@[l].index,
                forall|j: int|
                    0 <= j < p && s[j] != 0 ==> exists|k: int|
                        0 <= k < runs@.len() && #[trigger] runs@[k].index <= j < runs@[k].index
                            + runs@[k].pages,
            decreases limit - p,
        {
            let skipped = self.skip_empty(p, limit);
            proof {
                lemma_used_count_stretch(s, p as int, (p + skipped) as int);
            }
            let ghost p0 = p;
            p = p + skipped;
            if p < limit {
                let used = self.count_used(p, limit);
                proof {
                    lemma_status_bits(s[p as int]);
                    assert forall|j: int| p <= j < p + used implies s[j] != 0 by {
                        lemma_status_bits(s[j]);
                    }
                    assert forall|j: int| p <= j < p + used - 1 implies s[j] == 1 by {
                        lemma_status_bits(s[j]);
                    }
                    if p + used < limit {
                        lemma_status_bits(s[p + used]);
                    }
                    if used > 0 {
                        lemma_status_bits(s[p + used - 1]);
                    }
                    if p > 0 {
                        lemma_status_bits(s[p - 1]);
                    }
                    lemma_used_count_stretch(s, p as int, (p + used) as int);
                    lemma_used_count_bound(s.take(p as int));
                }
                if used > 0 {
                    let run = PageRun {
                        index: p,
                        address: self.alloc_start + PAGE_SIZE * p,
                        pages: used,
                    };
                    let ghost old_runs = runs@;
                    runs.push(run);
                    proof {
                        assert(runs@.drop_last() =~= old_runs);
                        assert(run_ok(s, self.alloc_base() as int, run));
                        assert forall|j: int|
                            0 <= j < p + used && s[j] != 0 implies exists|k: int|
                            0 <= k < runs@.len() && #[trigger] runs@[k].index <= j < runs@[k].index
                                + runs@[k].pages by {
                            if j < p0 {
                                let k = choose|k: int|
                                    0 <= k < old_runs.len() && #[trigger] old_runs[k].index <= j
                                        < old_runs[k].index + old_runs[k].pages;
                                assert(runs@[k] == old_runs[k]);
                            } else if j >= p {
                                assert(runs@[runs@.len() - 1] == run);
                            }
                        }
                    }
                    p = p + used;
                    n = n + used;
                }
            }
        }
        proof {
            assert(s.take(limit as int) =~= s);
        }
        (runs, n)
    }
}

/// Pages and bytes in use and free, for `n` pages in use out of `max_pages`.
pub fn print_usage(n: usize, max_pages: usize) -> (r: PageUsage)
    requires
        n <= max_pages,
        max_pages * PAGE_SIZE <= usize::MAX,
    ensures
        r.allocated_pages == n,
        r.allocated_bytes == n * PAGE_SIZE,
        r.free_pages == max_pages - n,
        r.free_bytes == (max_pages - n) * PAGE_SIZE,
        r.allocated_pages + r.free_pages == max_pages,
{
    PageUsage {
        allocated_pages: n,
        allocated_bytes: n * PAGE_SIZE,
        free_pages: max_pages - n,
        free_bytes: (max_pages - n) * PAGE_SIZE,
    }
}

/// The page allocation table: where the table and the pages lie, each
/// allocation in address order, and how many pages are in use and free.
pub fn print_page(h: &HeapDiagnostics) -> (r: PageReport)
    requires
        h.report_ready(),
    ensures
        r.layout.meta_begin == h.first_descriptor(),
        r.layout.meta_end == h.first_descriptor() + h.page_count(),
        r.layout.phys_begin == h.alloc_base(),
        r.layout.phys_end == h.alloc_base() + h.page_count() * PAGE_SIZE,
        runs_describe(h.table(), h.alloc_base() as int, r.runs@),
        r.usage.allocated_pages == used_count(h.table()),
        r.usage.allocated_pages == total_pages(r.runs@),
        r.usage.allocated_bytes == used_count(h.table()) * PAGE_SIZE,
        r.usage.free_pages == h.page_count() - used_count(h.table()),
        r.usage.free_bytes == (h.page_count() - used_count(h.table())) * PAGE_SIZE,
{
    let layout = h.print_heap();
    let (runs, n) = h.print_page_alloc();
    proof {
        lemma_used_count_bound(h.table());
    }
    let usage = print_usage(n, h.max_pages);
    PageReport { layout, runs, usage }
}

/// A table has no more non-empty pages than pages.
pub proof fn lemma_used_count_bound(s: Seq<u8>)
    ensures
        used_count(s) <= s.len(),
    decreases s.len(),
{
    if s.len() > 0 {
        lemma_used_count_bound(s.drop_last());
    }
}

/// Address `a` of page `i` maps back to page `i`, which the heap's bound
/// does not refuse.
pub proof fn lemma_page_index_of_address(h: &HeapDiagnostics, i: int)
    requires
        h.wf(),
        0 <= i < h.page_count(),
    ensures
        ({
            let a = (h.alloc_base() + i * PAGE_SIZE) as usize;
            &&& a == h.alloc_base() + i * PAGE_SIZE
            &&& a != 0
            &&& a >= h.alloc_base()
            &&& page_index(h, a) == i
            &&& page_index(h, a) < h.heap_bytes()
        }),
{
    let a = (h.alloc_base() + i * PAGE_SIZE) as usize;
    assert(((i * 4096) / 4096) == i) by (nonlinear_arith)
        requires
            0 <= i,
    ;
}

/// Giving back the address that an allocation of `k` pages at page `i`
/// returned succeeds and leaves the table exactly as it was before that
/// allocation.
pub proof fn law_dealloc_undoes_alloc(
    before: &HeapDiagnostics,
    after: &HeapDiagnostics,
    i: int,
    k: int,
    r: Result<Freed, DeallocError>,
    t: Seq<u8>,
)
    requires
        before.wf(),
        after.wf(),
        after.same_layout(before),
        0 <= i,
        0 < k,
        i + k <= before.page_count(),
        free_run(before.table(), i, k),
        after.table() == mark_run(before.table(), i, k),
        dealloc_outcome(after, (before.alloc_base() + i * PAGE_SIZE) as usize, r, t),
    ensures
        r == Ok::<Freed, DeallocError>(Freed::InTable),
        t == before.table(),
{
    let s = before.table();
    let m = after.table();
    lemma_page_index_of_address(after, i);
    assert forall|j: int| i <= j < i + k implies s[j] == 0 by {
        lemma_status_bits(s[j]);
    }
    lemma_run_end_over_run(m, i, i + k - 1);
    assert(zero_range(m, i, i + k) =~= s);
}

/// A walk from `i` over pages that are all used pages in the middle of an
/// allocation up to `e`, where `e` is not, stops at `e`.
pub proof fn lemma_run_end_over_run(s: Seq<u8>, i: int, e: int)
    requires
        0 <= i <= e < s.len(),
        s[e] != 1,
        forall|j: int| i <= j < e ==> s[j] == 1,
    ensures
        run_end(s, i) == e,
    decreases e - i,
{
    if i < e {
        lemma_run_end_over_run(s, i + 1, e);
    }
}

/// Once an address was given back, giving it back again is refused as a
/// double free and changes nothing.
pub proof fn law_second_dealloc_refused(
    first: &HeapDiagnostics,
    second: &HeapDiagnostics,
    p: usize,
    r: Result<Freed, DeallocError>,
    t: Seq<u8>,
)
    requires
        first.wf(),
        second.wf(),
        second.same_layout(first),
        dealloc_outcome(first, p, Ok(Freed::InTable), second.table()),
        dealloc_outcome(second, p, r, t),
    ensures
        r == Err::<Freed, DeallocError>(DeallocError::DoubleFree),
        t == second.table(),
{
    let i = page_index(first, p);
    lemma_run_end(first.table(), i);
    let u = second.table();
    assert(u[i] == 0);
    assert(run_end(u, i) == i);
    assert(zero_range(u, i, i) =~= u);
}

/// On a table with every page empty, the first `k` pages can be handed out,
/// so an allocation of fewer pages than the table has starts at page 0.
pub proof fn law_empty_table_first_fit(s: Seq<u8>, k: int)
    requires
        forall|j: int| 0 <= j < s.len() ==> s[j] == 0,
        0 < k < s.len(),
    ensures
        free_run(s, 0, k),
{
    assert forall|j: int| 0 <= j < k implies !used_bit(#[trigger] s[j]) by {
        lemma_status_bits(s[j]);
    }
}

/// A table with every page empty has no page in use and no allocation to
/// report.
pub proof fn law_empty_table_unused(s: Seq<u8>, base: int, rs: Seq<PageRun>)
    requires
        forall|j: int| 0 <= j < s.len() ==> s[j] == 0,
        runs_describe(s, base, rs),
    ensures
        used_count(s) == 0,
        rs.len() == 0,
{
    lemma_used_count_stretch(s, 0, s.len() as int);
    assert(s.take(s.len() as int) =~= s);
    assert(s.take(0) =~= Seq::<u8>::empty());
    if rs.len() > 0 {
        assert(run_ok(s, base, rs[0]));
        assert(s[rs[0].index as int] != 0);
    }
}

/// Page `j` begins an allocation: it is not empty and no allocation runs on
/// into it from the page before.
pub open spec fn is_start(s: Seq<u8>, j: int) -> bool {
    &&& 0 <= j < s.len()
    &&& s[j] != 0
    &&& (j == 0 || s[j - 1] != 1)
}

/// Number of pages of the allocation that begins at page `i`: up to the
/// walk's stop, and that page too where it is a last page.
pub open spec fn run_length(s: Seq<u8>, i: int) -> int {
    run_end(s, i) - i + if s[run_end(s, i)] == 3 {
        1int
    } else {
        0int
    }
}

/// In a well-formed table a whole allocation is as long as the walk from its
/// first page says.
pub proof fn lemma_run_ok_length(s: Seq<u8>, base: int, r: PageRun)
    requires
        table_wf(s),
        run_ok(s, base, r),
    ensures
        r.pages == run_length(s, r.index as int),
{
    let i = r.index as int;
    let e = r.index + r.pages;
    lemma_status_bits(s[e - 1]);
    if s[e - 1] == 3 {
        lemma_run_end_over_run(s, i, e - 1);
    } else {
        assert(e < s.len());
        lemma_run_end_over_run(s, i, e);
    }
}

/// Where the list's allocation `k` may begin at the earliest: after the one
/// before it, or at page 0.
pub open spec fn run_floor(rs: Seq<PageRun>, k: int) -> int {
    if k == 0 {
        0
    } else {
        rs[k - 1].index + rs[k - 1].pages
    }
}

/// Each listed allocation's first page begins an allocation.
pub proof fn lemma_listed_is_start(s: Seq<u8>, base: int, rs: Seq<PageRun>, k: int)
    requires
        runs_describe(s, base, rs),
        0 <= k < rs.len(),
    ensures
        is_start(s, rs[k].index as int),
{
    assert(run_ok(s, base, rs[k]));
}

/// A page that begins an allocation is the first page of a listed one.
pub proof fn lemma_start_is_listed(s: Seq<u8>, base: int, rs: Seq<PageRun>, j: int) -> (l: int)
    requires
        runs_describe(s, base, rs),
        is_start(s, j),
    ensures
        0 <= l < rs.len(),
        rs[l].index == j,
{
    let l = choose|l: int|
        0 <= l < rs.len() && #[trigger] rs[l].index <= j < rs[l].index + rs[l].pages;
    assert(run_ok(s, base, rs[l]));
    if rs[l].index < j {
        assert(s[j - 1] == 1);
    }
    l
}

/// No page between a listed allocation and the one before it (or page 0)
/// begins an allocation.
pub proof fn lemma_no_start_before(s: Seq<u8>, base: int, rs: Seq<PageRun>, k: int, j: int)
    requires
        runs_describe(s, base, rs),
        0 <= k < rs.len(),
        run_floor(rs, k) <= j < rs[k].index,
    ensures
        !is_start(s, j),
{
    if is_start(s, j) {
        let l = lemma_start_is_listed(s, base, rs, j);
        assert(run_ok(s, base, rs[l]));
        if l < k {
            assert(run_ok(s, base, rs[k - 1]));
            if l < k - 1 {
                assert(rs[l].index + rs[l].pages <= rs[k - 1].index);
            }
        } else if l > k {
            assert(rs[k].index + rs[k].pages <= rs[l].index);
            assert(run_ok(s, base, rs[k]));
        }
    }
}

/// No page after the last listed allocation begins an allocation.
pub proof fn lemma_no_start_after(s: Seq<u8>, base: int, rs: Seq<PageRun>, j: int)
    requires
        runs_describe(s, base, rs),
        run_floor(rs, rs.len() as int) <= j,
    ensures
        !is_start(s, j),
{
    if is_start(s, j) {
        let l = lemma_start_is_listed(s, base, rs, j);
        let m = rs.len() - 1;
        assert(run_ok(s, base, rs[l]));
        assert(run_ok(s, base, rs[m]));
        if l < m {
            assert(rs[l].index + rs[l].pages <= rs[m].index);
        }
    }
}

/// Two lists that describe one well-formed table agree on their first `k`
/// allocations.
pub proof fn lemma_runs_agree(s: Seq<u8>, base: int, rs1: Seq<PageRun>, rs2: Seq<PageRun>, k: int)
    requires
        table_wf(s),
        runs_describe(s, base, rs1),
        runs_describe(s, base, rs2),
        0 <= k <= rs1.len(),
        k <= rs2.len(),
    ensures
        forall|i: int| 0 <= i < k ==> rs1[i] == rs2[i],
    decreases k,
{
    if k > 0 {
        lemma_runs_agree(s, base, rs1, rs2, k - 1);
        let j = k - 1;
        let a = rs1[j];
        let b = rs2[j];
        if j > 0 {
            assert(rs1[j - 1] == rs2[j - 1]);
        }
        assert(run_floor(rs1, j) == run_floor(rs2, j));
        lemma_listed_is_start(s, base, rs1, j);
        lemma_listed_is_start(s, base, rs2, j);
        if a.index < b.index {
            lemma_no_start_before(s, base, rs2, j, a.index as int);
        }
        if b.index < a.index {
            lemma_no_start_before(s, base, rs1, j, b.index as int);
        }
        assert(run_ok(s, base, a));
        assert(run_ok(s, base, b));
        lemma_run_ok_length(s, base, a);
        lemma_run_ok_length(s, base, b);
        assert(a == b);
    }
}

/// A well-formed table has one description only: two lists of allocations
/// that both describe it are equal, so two reports on one table agree.
pub proof fn law_runs_unique(s: Seq<u8>, base: int, rs1: Seq<PageRun>, rs2: Seq<PageRun>)
    requires
        table_wf(s),
        runs_describe(s, base, rs1),
        runs_describe(s, base, rs2),
    ensures
        rs1 == rs2,
{
    let n = if rs1.len() < rs2.len() {
        rs1.len()
    } else {
        rs2.len()
    };
    lemma_runs_agree(s, base, rs1, rs2, n as int);
    if rs1.len() < rs2.len() {
        let m = rs1.len() as int;
        if m > 0 {
            assert(rs1[m - 1] == rs2[m - 1]);
        }
        assert(run_floor(rs1, m) == run_floor(rs2, m));
        lemma_listed_is_start(s, base, rs2, m);
        lemma_no_start_after(s, base, rs1, rs2[m].index as int);
    }
    if rs2.len() < rs1.len() {
        let m = rs2.len() as int;
        if m > 0 {
            assert(rs1[m - 1] == rs2[m - 1]);
        }
        assert(run_floor(rs1, m) == run_floor(rs2, m));
        lemma_listed_is_start(s, base, rs1, m);
        lemma_no_start_after(s, base, rs2, rs1[m].index as int);
    }
    assert(rs1 =~= rs2);
}

/// Every address inside page `i` of the page area names page `i`: the page
/// number is the truncated quotient of the distance from the page area's
/// start by the page size.
pub proof fn lemma_page_index_in_page(h: &HeapDiagnostics, p: usize, i: int)
    requires
        0 <= i,
        h.alloc_base() + i * PAGE_SIZE <= p < h.alloc_base() + (i + 1) * PAGE_SIZE,
    ensures
        page_index(h, p) == i,
{
    let d = p - h.alloc_base();
    assert(d / 4096 == i) by (nonlinear_arith)
        requires
            i * 4096 <= d < (i + 1) * 4096,
    ;
}

/// Giving back any address inside page `i` of the page area does exactly
/// what giving back the page's first address does: same answer, same
/// table. The page looked up is the one that holds the address.
pub proof fn law_dealloc_page_holding_address(
    h: &HeapDiagnostics,
    p: usize,
    i: int,
    r: Result<Freed, DeallocError>,
    t: Seq<u8>,
)
    requires
        0 <= i,
        h.alloc_base() + i * PAGE_SIZE <= p < h.alloc_base() + (i + 1) * PAGE_SIZE,
        dealloc_outcome(h, p, r, t),
    ensures
        dealloc_outcome(h, (h.alloc_base() + i * PAGE_SIZE) as usize, r, t),
        page_index(h, p) == i,
{
    let a = (h.alloc_base() + i * PAGE_SIZE) as usize;
    lemma_page_index_in_page(h, p, i);
    lemma_page_index_in_page(h, a, i);
}

/// The page that `page_from_address` finds for an address holds that
/// address, and it finds one exactly for the addresses from the page area's
/// start up to `heap_size` pages on.
pub proof fn law_page_from_address_holds_address(h: &HeapDiagnostics, p: usize, r: Option<usize>)
    requires
        p < h.alloc_base() ==> r == None::<usize>,
        p >= h.alloc_base() && page_index(h, p) >= h.heap_bytes() ==> r == None::<usize>,
        p >= h.alloc_base() && page_index(h, p) < h.heap_bytes() ==> r == Some(
            page_index(h, p) as usize,
        ),
    ensures
        r matches Some(i) ==> h.alloc_base() + i * PAGE_SIZE <= p < h.alloc_base() + (i + 1)
            * PAGE_SIZE,
        r is Some <==> (p >= h.alloc_base() && p - h.alloc_base() < h.heap_bytes() * PAGE_SIZE),
{
    if p >= h.alloc_base() {
        let d = p - h.alloc_base();
        let q = d / 4096;
        assert(q * 4096 <= d < (q + 1) * 4096) by (nonlinear_arith)
            requires
                d >= 0,
                q == d / 4096,
        ;
        assert((q < h.heap_bytes()) <==> (d < h.heap_bytes() * 4096)) by (nonlinear_arith)
            requires
                q * 4096 <= d < (q + 1) * 4096,
        ;
    }
}

/// Giving back an address in the table clears its page and the used pages
/// after it up to the first page that is not a used page in the middle of an
/// allocation: where that page is a last page it is cleared too and the
/// give-back succeeds; where it is empty nothing more is cleared and the
/// give-back is refused as a double free. Every other page keeps its status.
pub proof fn law_dealloc_clears_allocation(
    h: &HeapDiagnostics,
    p: usize,
    r: Result<Freed, DeallocError>,
    t: Seq<u8>,
)
    requires
        h.wf(),
        p >= h.alloc_base(),
        page_index(h, p) < h.page_count(),
        dealloc_outcome(h, p, r, t),
    ensures
        ({
            let s = h.table();
            let i = page_index(h, p);
            exists|e: int|
                {
                    &&& i <= e < s.len()
                    &&& forall|j: int| i <= j < e ==> #[trigger] s[j] == 1
                    &&& (#[trigger] s[e] == 3 || s[e] == 0)
                    &&& t.len() == s.len()
                    &&& (s[e] == 3 ==> r == Ok::<Freed, DeallocError>(Freed::InTable) && forall|j: int|
                        0 <= j < s.len() ==> #[trigger] t[j] == if i <= j <= e {
                            0u8
                        } else {
                            s[j]
                        })
                    &&& (s[e] == 0 ==> r == Err::<Freed, DeallocError>(DeallocError::DoubleFree)
                        && forall|j: int|
                        0 <= j < s.len() ==> #[trigger] t[j] == if i <= j < e {
                            0u8
                        } else {
                            s[j]
                        })
                }
        }),
{
    let s = h.table();
    let i = page_index(h, p);
    lemma_run_end(s, i);
    let e = run_end(s, i);
    assert(valid_status(s[e]));
    assert(s[e] == 3 || s[e] == 0);
}

} // verus!
