//! Frame descriptors and the page-frame allocator built on them.
use crate::uart::{address_token, UART};
use vstd::prelude::*;
use vstd::string::StringSliceAdditionalSpecFns;

verus! {

/// Size in bytes of one page frame.
pub const PAGE_SIZE: usize = 4096;

/// Descriptor of one page frame: bit 0 records that the frame is allocated,
/// bit 1 that it is the last frame of its block.
#[derive(Clone, Copy, Debug, PartialEq, Eq)]
pub struct Page {
    flags: u8,
}

impl Page {
    /// The frame belongs to an allocated block.
    pub closed spec fn is_allocated(self) -> bool {
        self.flags & 1 != 0
    }

    /// The frame is the last one of its block.
    pub closed spec fn is_last(self) -> bool {
        self.flags & 2 != 0
    }

    /// Only the two flag bits may be set.
    pub closed spec fn is_canonical(self) -> bool {
        self.flags < 4
    }

    pub fn new() -> (r: Self)
        ensures
            !r.is_allocated(),
            !r.is_last(),
            r.is_canonical(),
    {
        assert(0u8 & 1 == 0 && 0u8 & 2 == 0) by (bit_vector);
        Page { flags: 0 }
    }

    pub fn allocated(&self) -> (r: bool)
        ensures
            r == self.is_allocated(),
    {
        self.flags & 0x01 != 0
    }

    pub fn last(&self) -> (r: bool)
        ensures
            r == self.is_last(),
    {
        self.flags & 0x02 != 0
    }

    pub fn clear(&mut self)
        ensures
            !final(self).is_allocated(),
            !final(self).is_last(),
            final(self).is_canonical(),
    {
        assert(0u8 & 1 == 0 && 0u8 & 2 == 0) by (bit_vector);
        self.flags = 0;
    }

    pub fn allocate(&mut self)
        ensures
            final(self).is_allocated(),
            final(self).is_last() == old(self).is_last(),
            old(self).is_canonical() ==> final(self).is_canonical(),
    {
        let f = self.flags;
        assert((f | 1) & 1 != 0 && (((f | 1) & 2 != 0) == (f & 2 != 0)) && (f < 4 ==> (f | 1)
            < 4)) by (bit_vector);
        self.flags = self.flags | 0x01;
    }

    pub fn mark_last(&mut self)
        ensures
            final(self).is_last(),
            final(self).is_allocated() == old(self).is_allocated(),
            old(self).is_canonical() ==> final(self).is_canonical(),
    {
        let f = self.flags;
        assert((f | 2) & 2 != 0 && (((f | 2) & 1 != 0) == (f & 1 != 0)) && (f < 4 ==> (f | 2)
            < 4)) by (bit_vector);
        self.flags = self.flags | 0x02;
    }

    pub fn free(&mut self)
        ensures
            !final(self).is_allocated(),
            !final(self).is_last(),
            final(self).is_canonical(),
    {
        self.clear();
    }

    pub fn mark_not_last(&mut self)
        ensures
            !final(self).is_last(),
            final(self).is_allocated() == old(self).is_allocated(),
            old(self).is_canonical() ==> final(self).is_canonical(),
    {
        let f = self.flags;
        assert((f & 0xfd) & 2 == 0 && (((f & 0xfd) & 1 != 0) == (f & 1 != 0)) && (f < 4 ==> (f
            & 0xfd) < 4)) by (bit_vector);
        self.flags = self.flags & 0xfd;
    }
}

/// Two canonical descriptors with the same flags are the same descriptor.
proof fn lemma_page_determined(p: Page, q: Page)
    requires
        p.is_canonical(),
        q.is_canonical(),
        p.is_allocated() == q.is_allocated(),
        p.is_last() == q.is_last(),
    ensures
        p == q,
{
    let a = p.flags;
    let b = q.flags;
    assert(a == b) by (bit_vector)
        requires
            a < 4,
            b < 4,
            (a & 1 != 0) == (b & 1 != 0),
            (a & 2 != 0) == (b & 2 != 0),
    ;
}


/// Descriptor of a free frame.
pub closed spec fn free_page() -> Page {
    Page { flags: 0 }
}

/// Descriptor of an allocated frame that is not the last of its block.
pub closed spec fn used_page() -> Page {
    Page { flags: 1 }
}

/// Descriptor of the last frame of an allocated block.
pub closed spec fn tail_page() -> Page {
    Page { flags: 3 }
}

/// The three states a descriptor of the index takes.
pub open spec fn is_valid_state(p: Page) -> bool {
    p == free_page() || p == used_page() || p == tail_page()
}

proof fn lemma_page_states()
    ensures
        !free_page().is_allocated() && !free_page().is_last() && free_page().is_canonical(),
        used_page().is_allocated() && !used_page().is_last() && used_page().is_canonical(),
        tail_page().is_allocated() && tail_page().is_last() && tail_page().is_canonical(),
{
    assert(0u8 & 1 == 0 && 0u8 & 2 == 0) by (bit_vector);
    assert(1u8 & 1 != 0 && 1u8 & 2 == 0) by (bit_vector);
    assert(3u8 & 1 != 0 && 3u8 & 2 != 0) by (bit_vector);
}

/// `value` rounded up to the next multiple of `block`.
pub open spec fn align_up(value: int, block: int) -> int {
    block * ((value + block - 1) / block)
}

// Returns the multiple of block that lies in the interval [value, value + block).
fn align_to(value: usize, block: usize) -> (r: usize)
    requires
        block > 0,
        value + block - 1 <= usize::MAX,
    ensures
        r == align_up(value as int, block as int),
        value <= r < value + block,
        r % block == 0,
{
    let q = (value + (block - 1)) / block;
    proof {
        let x = value + block - 1;
        vstd::arithmetic::div_mod::lemma_fundamental_div_mod(x as int, block as int);
        vstd::arithmetic::div_mod::lemma_div_multiples_vanish(q as int, block as int);
        vstd::arithmetic::div_mod::lemma_fundamental_div_mod(block * q, block as int);
    }
    block * q
}

/// Whether frames `i .. i + n` are all free.
pub open spec fn run_is_free(frames: Seq<Page>, i: int, n: int) -> bool {
    forall|j: int| i <= j < i + n ==> !(#[trigger] frames[j]).is_allocated()
}

/// First-fit search for a run of `n` free frames starting at `i` or later.
/// Only start frames below `frames.len() - n` are candidates.
pub open spec fn first_fit_from(frames: Seq<Page>, n: int, i: int) -> Option<int>
    decreases frames.len() - i,
{
    if n <= 0 || i < 0 || i + n >= frames.len() {
        None
    } else if run_is_free(frames, i, n) {
        Some(i)
    } else {
        first_fit_from(frames, n, i + 1)
    }
}

/// The start frame that the allocator picks for a block of `n` frames.
pub open spec fn first_fit(frames: Seq<Page>, n: int) -> Option<int> {
    first_fit_from(frames, n, 0)
}

proof fn lemma_first_fit(frames: Seq<Page>, n: int)
    ensures
        match first_fit(frames, n) {
            Some(k) => {
                &&& 0 <= k
                &&& 0 < n
                &&& k + n < frames.len()
                &&& run_is_free(frames, k, n)
                &&& forall|m: int| 0 <= m < k ==> !run_is_free(frames, m, n)
            },
            None => n > 0 ==> forall|m: int|
                0 <= m && m + n < frames.len() ==> !run_is_free(frames, m, n),
        },
{
    lemma_first_fit_from(frames, n, 0);
}

proof fn lemma_first_fit_from(frames: Seq<Page>, n: int, i: int)
    requires
        0 <= i,
    ensures
        match first_fit_from(frames, n, i) {
            Some(k) => {
                &&& i <= k
                &&& 0 < n
                &&& k + n < frames.len()
                &&& run_is_free(frames, k, n)
                &&& forall|m: int| i <= m < k ==> !run_is_free(frames, m, n)
            },
            None => n > 0 ==> forall|m: int|
                i <= m && m + n < frames.len() ==> !run_is_free(frames, m, n),
        },
    decreases frames.len() - i,
{
    if n <= 0 || i + n >= frames.len() {
    } else if !run_is_free(frames, i, n) {
        lemma_first_fit_from(frames, n, i + 1);
    }
}

/// `frames` with the block `i .. i + n` marked allocated, its last frame as tail.
pub open spec fn mark_block(frames: Seq<Page>, i: int, n: int) -> Seq<Page> {
    Seq::new(
        frames.len(),
        |j: int|
            if i <= j < i + n - 1 {
                used_page()
            } else if j == i + n - 1 {
                tail_page()
            } else {
                frames[j]
            },
    )
}

/// `frames` with the frames `s .. e` set free.
pub open spec fn clear_frames(frames: Seq<Page>, s: int, e: int) -> Seq<Page> {
    Seq::new(frames.len(), |j: int| if s <= j < e { free_page() } else { frames[j] })
}

/// Where a walk from frame `s` stops: the first frame that is not an allocated
/// interior frame of a block, or the end of the index.
pub open spec fn walk_end(frames: Seq<Page>, s: int) -> int
    decreases frames.len() - s,
{
    if s < 0 || s >= frames.len() {
        s
    } else if frames[s].is_allocated() && !frames[s].is_last() {
        walk_end(frames, s + 1)
    } else {
        s
    }
}

/// `bytes` with positions `lo .. hi` set to zero.
pub open spec fn zero_range(bytes: Seq<u8>, lo: int, hi: int) -> Seq<u8> {
    Seq::new(bytes.len(), |b: int| if lo <= b < hi { 0u8 } else { bytes[b] })
}

/// The region layout can be represented: its end, the descriptor array with
/// its alignment padding, and every payload address fit in a machine word.
pub open spec fn region_fits(heap_start: int, heap_size: int) -> bool {
    let count = heap_size / PAGE_SIZE as int;
    &&& heap_start + heap_size <= usize::MAX
    &&& heap_start + count + PAGE_SIZE - 1 <= usize::MAX
    &&& align_up(heap_start + count, PAGE_SIZE as int) + count * PAGE_SIZE <= usize::MAX
}

/// A page-frame allocator over one memory region: one descriptor per frame,
/// and the payload bytes of the frames.
pub struct PageAllocator {
    pages: Vec<Page>,
    memory: Vec<u8>,
    heap_start: usize,
    heap_size: usize,
    allocation_start: usize,
}

impl PageAllocator {
    /// The frame descriptors, by frame index.
    pub closed spec fn frames(&self) -> Seq<Page> {
        self.pages@
    }

    /// The payload bytes of all frames, from the allocation base on.
    pub closed spec fn contents(&self) -> Seq<u8> {
        self.memory@
    }

    pub closed spec fn start(&self) -> int {
        self.heap_start as int
    }

    pub closed spec fn size(&self) -> int {
        self.heap_size as int
    }

    /// Payload address of frame 0.
    pub closed spec fn base(&self) -> int {
        self.allocation_start as int
    }

    pub open spec fn count(&self) -> int {
        self.frames().len() as int
    }

    pub open spec fn region_end(&self) -> int {
        self.start() + self.size()
    }

    pub open spec fn page_address_of(&self, i: int) -> int {
        self.base() + i * PAGE_SIZE
    }

    pub open spec fn frame_index_of(&self, address: int) -> int {
        (address - self.base()) / PAGE_SIZE as int
    }

    pub closed spec fn wf(&self) -> bool {
        &&& region_fits(self.start(), self.size())
        &&& self.count() == self.size() / PAGE_SIZE as int
        &&& self.base() == align_up(self.start() + self.count(), PAGE_SIZE as int)
        &&& self.contents().len() == self.count() * PAGE_SIZE
        &&& forall|i: int| 0 <= i < self.count() ==> is_valid_state(#[trigger] self.frames()[i])
    }

    /// Same region, same frames, same allocation base.
    pub open spec fn same_layout(&self, other: &Self) -> bool {
        &&& self.start() == other.start()
        &&& self.size() == other.size()
        &&& self.base() == other.base()
        &&& self.count() == other.count()
    }

    /// What an allocation of `n` frames does to the descriptors and returns.
    pub open spec fn allocation_outcome(&self, n: int, after: &Self, r: Option<usize>) -> bool {
        &&& after.wf()
        &&& after.same_layout(self)
        &&& match first_fit(self.frames(), n) {
            Some(i) => {
                &&& r matches Some(a) && a == self.page_address_of(i)
                &&& after.frames() == mark_block(self.frames(), i, n)
            },
            None => {
                &&& r is None
                &&& after.frames() == self.frames()
            },
        }
    }

    /// An address that `free_block` accepts for a walk: not the null sentinel,
    /// inside the region, at or past the allocation base, and inside a frame
    /// of the index.
    pub open spec fn address_in_range(&self, address: int) -> bool {
        &&& address != 0
        &&& self.base() <= address < self.region_end()
        &&& self.frame_index_of(address) < self.count()
    }

    /// What freeing `address` does to the descriptors and returns.
    pub open spec fn free_outcome(&self, address: int, after: &Self, r: bool) -> bool {
        &&& after.wf()
        &&& after.same_layout(self)
        &&& after.contents() == self.contents()
        &&& if !self.address_in_range(address) {
            !r && after.frames() == self.frames()
        } else {
            let s = self.frame_index_of(address);
            let t = walk_end(self.frames(), s);
            let ok = t < self.count() && self.frames()[t].is_allocated()
                && self.frames()[t].is_last();
            &&& r == ok
            &&& after.frames() == clear_frames(
                self.frames(),
                s,
                if ok {
                    t + 1
                } else {
                    t
                },
            )
        }
    }
}


impl PageAllocator {
    /// Payload address of frame `index`.
    pub fn page_address(&self, index: usize) -> (r: usize)
        requires
            self.wf(),
            index <= self.count(),
        ensures
            r == self.page_address_of(index as int),
    {
        proof {
            assert(index * PAGE_SIZE <= self.count() * PAGE_SIZE);
        }
        self.allocation_start + index * PAGE_SIZE
    }
}

/// Sets up the allocator over the region `heap_start .. heap_start + heap_size`:
/// every frame free, the allocation base placed after the descriptor array.
pub fn initialize_page_index(heap_start: usize, heap_size: usize) -> (r: PageAllocator)
    requires
        region_fits(heap_start as int, heap_size as int),
    ensures
        r.wf(),
        r.start() == heap_start,
        r.size() == heap_size,
        r.count() == heap_size / PAGE_SIZE,
        r.base() == align_up(heap_start + heap_size / PAGE_SIZE, PAGE_SIZE as int),
        forall|i: int| 0 <= i < r.count() ==> #[trigger] r.frames()[i] == free_page(),
        forall|b: int| 0 <= b < r.contents().len() ==> #[trigger] r.contents()[b] == 0,
{
    let page_count = heap_size / PAGE_SIZE;
    let mut pages: Vec<Page> = Vec::new();
    let mut i: usize = 0;
    while i < page_count
        invariant
            i <= page_count,
            pages@.len() == i,
            forall|j: int| 0 <= j < i ==> #[trigger] pages@[j] == free_page(),
        decreases page_count - i,
    {
        let p = Page::new();
        proof {
            lemma_page_states();
            lemma_page_determined(p, free_page());
        }
        pages.push(p);
        i += 1;
    }
    let total = page_count * PAGE_SIZE;
    let mut memory: Vec<u8> = Vec::new();
    let mut b: usize = 0;
    while b < total
        invariant
            b <= total,
            memory@.len() == b,
            forall|k: int| 0 <= k < b ==> #[trigger] memory@[k] == 0,
        decreases total - b,
    {
        memory.push(0);
        b += 1;
    }
    let allocation_start = align_to(heap_start + page_count, PAGE_SIZE);
    proof {
        lemma_page_states();
    }
    PageAllocator { pages, memory, heap_start, heap_size, allocation_start }
}

/// Allocates a block of `block_size` contiguous frames, first fit. Returns the
/// payload address of its first frame, or `None` for an empty request or when
/// no run of free frames is long enough.
pub fn allocate_page_block(index: &mut PageAllocator, block_size: usize) -> (r: Option<usize>)
    requires
        old(index).wf(),
    ensures
        old(index).allocation_outcome(block_size as int, &*final(index), r),
        final(index).contents() == old(index).contents(),
{
    let page_count = index.pages.len();
    if block_size == 0 || block_size >= page_count {
        return None;
    }
    let ghost frames = index.frames();
    let mut i: usize = 0;
    while i < page_count - block_size
        invariant
            *index == *old(index),
            index.wf(),
            frames == index.frames(),
            page_count == frames.len(),
            0 < block_size < page_count,
            i <= page_count - block_size,
            first_fit(frames, block_size as int) == first_fit_from(frames, block_size as int, i as int),
        decreases page_count - block_size - i,
    {
        let mut found = true;
        let mut j: usize = i;
        while j < i + block_size && found
            invariant
                *index == *old(index),
                index.wf(),
                frames == index.frames(),
                page_count == frames.len(),
                i + block_size < page_count,
                i <= j <= i + block_size,
                found ==> forall|k: int| i <= k < j ==> !(#[trigger] frames[k]).is_allocated(),
                !found ==> !run_is_free(frames, i as int, block_size as int),
            decreases i + block_size - j + (if found { 1int } else { 0int }),
        {
            if index.pages[j].allocated() {
                found = false;
            } else {
                j += 1;
            }
        }
        if found {
            mark_pages(index, i, block_size);
            let address = index.page_address(i);
            return Some(address);
        }
        i += 1;
    }
    None
}

// Marks frames `start .. start + n` allocated and the last of them as the tail.
fn mark_pages(index: &mut PageAllocator, start: usize, n: usize)
    requires
        old(index).wf(),
        n > 0,
        start + n < old(index).count(),
        run_is_free(old(index).frames(), start as int, n as int),
    ensures
        final(index).wf(),
        final(index).same_layout(&*old(index)),
        final(index).contents() == old(index).contents(),
        final(index).frames() == mark_block(old(index).frames(), start as int, n as int),
{
    proof {
        lemma_page_states();
    }
    let ghost frames = index.frames();
    let end = start + n;
    let mut j: usize = start;
    while j < end
        invariant
            end == start + n,
            start <= j <= start + n,
            start + n < frames.len(),
            run_is_free(frames, start as int, n as int),
            forall|i: int| 0 <= i < frames.len() ==> is_valid_state(#[trigger] frames[i]),
            index.pages@.len() == frames.len(),
            index.heap_start == old(index).heap_start,
            index.heap_size == old(index).heap_size,
            index.allocation_start == old(index).allocation_start,
            index.memory == old(index).memory,
            frames == old(index).frames(),
            forall|k: int|
                0 <= k < frames.len() ==> #[trigger] index.pages@[k] == if start <= k < j {
                    used_page()
                } else {
                    frames[k]
                },
        decreases start + n - j,
    {
        let mut p = index.pages[j];
        assert(!frames[j as int].is_allocated());
        p.allocate();
        proof {
            lemma_page_states();
            lemma_page_determined(p, used_page());
        }
        index.pages.set(j, p);
        j += 1;
    }
    let last = start + n - 1;
    let mut p = index.pages[last];
    p.mark_last();
    proof {
        lemma_page_states();
        lemma_page_determined(p, tail_page());
    }
    index.pages.set(last, p);
    assert(index.frames() =~= mark_block(frames, start as int, n as int));
}


/// Allocates like `allocate_page_block` and fills the whole block with zeros.
pub fn zero_allocate_page_block(index: &mut PageAllocator, block_size: usize) -> (r: Option<usize>)
    requires
        old(index).wf(),
    ensures
        old(index).allocation_outcome(block_size as int, &*final(index), r),
        match first_fit(old(index).frames(), block_size as int) {
            Some(i) => final(index).contents() == zero_range(
                old(index).contents(),
                i * PAGE_SIZE,
                (i + block_size) * PAGE_SIZE,
            ),
            None => final(index).contents() == old(index).contents(),
        },
{
    let block_start = allocate_page_block(index, block_size);
    if let Some(address) = block_start {
        let ghost i = first_fit(old(index).frames(), block_size as int)->0;
        proof {
            lemma_first_fit(old(index).frames(), block_size as int);
            assert(i * PAGE_SIZE + block_size * PAGE_SIZE <= index.count() * PAGE_SIZE);
        }
        let lo = address - index.allocation_start;
        let hi = lo + block_size * PAGE_SIZE;
        let mut b: usize = lo;
        while b < hi
            invariant
                index.wf(),
                lo <= b <= hi,
                lo == i * PAGE_SIZE,
                hi == (i + block_size) * PAGE_SIZE,
                hi <= index.memory@.len(),
                old(index).allocation_outcome(block_size as int, &*index, block_start),
                index.memory@ == zero_range(old(index).contents(), lo as int, b as int),
            decreases hi - b,
        {
            index.memory.set(b, 0);
            b += 1;
            assert(index.memory@ =~= zero_range(old(index).contents(), lo as int, b as int));
        }
    }
    block_start
}


/// Frees the block whose first frame holds `address`: clears frames from there
/// up to and including the first tail frame. Returns `false` for the null
/// address, an address outside the index, or a walk that meets a free frame or
/// the end of the index before a tail; frames cleared before such a failure
/// stay cleared.
pub fn free_block(index: &mut PageAllocator, address: usize) -> (r: bool)
    requires
        old(index).wf(),
    ensures
        old(index).free_outcome(address as int, &*final(index), r),
{
    if address == 0 {
        return false;
    }
    if address < index.allocation_start {
        return false;
    }
    if address >= index.heap_start + index.heap_size {
        return false;
    }
    let page_count = index.pages.len();
    let start = (address - index.allocation_start) / PAGE_SIZE;
    if start >= page_count {
        return false;
    }
    proof {
        lemma_page_states();
    }
    let ghost frames = index.frames();
    let mut k: usize = start;
    while k < page_count && index.pages[k].allocated() && !index.pages[k].last()
        invariant
            index.wf(),
            index.same_layout(&*old(index)),
            index.memory == old(index).memory,
            frames == old(index).frames(),
            page_count == frames.len(),
            start <= k <= page_count,
            walk_end(frames, start as int) == walk_end(frames, k as int),
            index.frames() == clear_frames(frames, start as int, k as int),
        decreases page_count - k,
    {
        let mut p = index.pages[k];
        p.free();
        proof {
            lemma_page_states();
            lemma_page_determined(p, free_page());
        }
        index.pages.set(k, p);
        k += 1;
        assert(index.frames() =~= clear_frames(frames, start as int, k as int));
    }
    if k >= page_count {
        return false;
    }
    let mut p = index.pages[k];
    if !p.allocated() || !p.last() {
        return false;
    }
    p.free();
    proof {
        lemma_page_states();
        lemma_page_determined(p, free_page());
    }
    index.pages.set(k, p);
    assert(index.frames() =~= clear_frames(frames, start as int, k + 1));
    true
}

impl PageAllocator {
    /// Number of frames in the region.
    pub fn frame_count(&self) -> (r: usize)
        ensures
            r == self.count(),
    {
        self.pages.len()
    }

    /// Payload address of frame 0.
    pub fn allocation_base(&self) -> (r: usize)
        ensures
            r == self.base(),
    {
        self.allocation_start
    }

    pub fn region_start(&self) -> (r: usize)
        ensures
            r == self.start(),
    {
        self.heap_start
    }

    pub fn region_size(&self) -> (r: usize)
        ensures
            r == self.size(),
    {
        self.heap_size
    }

    /// Descriptor of frame `i`, or `None` past the end of the index.
    pub fn page(&self, i: usize) -> (r: Option<Page>)
        ensures
            i < self.count() ==> r == Some(self.frames()[i as int]),
            i >= self.count() ==> r is None,
    {
        if i < self.pages.len() {
            Some(self.pages[i])
        } else {
            None
        }
    }

    /// Byte of frame payload at `address`, or `None` outside the frames.
    pub fn read_byte(&self, address: usize) -> (r: Option<u8>)
        requires
            self.wf(),
        ensures
            match r {
                Some(v) => self.base() <= address < self.base() + self.contents().len() && v
                    == self.contents()[address - self.base()],
                None => !(self.base() <= address < self.base() + self.contents().len()),
            },
    {
        if address < self.allocation_start || address - self.allocation_start >= self.memory.len() {
            None
        } else {
            Some(self.memory[address - self.allocation_start])
        }
    }

    /// Stores `value` at `address` of frame payload; `false`, with nothing
    /// changed, outside the frames.
    pub fn write_byte(&mut self, address: usize, value: u8) -> (r: bool)
        requires
            old(self).wf(),
        ensures
            final(self).wf(),
            final(self).same_layout(&*old(self)),
            final(self).frames() == old(self).frames(),
            r == (old(self).base() <= address < old(self).base() + old(self).contents().len()),
            r ==> final(self).contents() == old(self).contents().update(
                address - old(self).base(),
                value,
            ),
            !r ==> final(self).contents() == old(self).contents(),
    {
        if address < self.allocation_start || address - self.allocation_start >= self.memory.len() {
            false
        } else {
            let offset = address - self.allocation_start;
            self.memory.set(offset, value);
            true
        }
    }
}


proof fn lemma_walk_block(frames: Seq<Page>, i: int, n: int, m: int)
    requires
        0 <= i <= m,
        m <= i + n - 1,
        i + n <= frames.len(),
        forall|j: int| i <= j < i + n - 1 ==> #[trigger] frames[j] == used_page(),
        frames[i + n - 1] == tail_page(),
    ensures
        walk_end(frames, m) == i + n - 1,
    decreases i + n - 1 - m,
{
    lemma_page_states();
    if m < i + n - 1 {
        lemma_walk_block(frames, i, n, m + 1);
    }
}

/// Allocating a block and then freeing its address succeeds, and every frame
/// of the block is free again: the descriptors are as before the allocation.
/// The address is a whole number of frames past the allocation base. Stated
/// for addresses below the end of the region, which `free_block` accepts.
pub proof fn lemma_allocate_then_free(
    a: PageAllocator,
    b: PageAllocator,
    c: PageAllocator,
    n: int,
    r: Option<usize>,
    ok: bool,
)
    requires
        a.wf(),
        n > 0,
        a.allocation_outcome(n, &b, r),
        r is Some,
        r->0 < a.region_end(),
        b.free_outcome(r->0 as int, &c, ok),
    ensures
        (r->0 - a.base()) % PAGE_SIZE as int == 0,
        ok,
        forall|j: int|
            0 <= j < n ==> #[trigger] c.frames()[a.frame_index_of(r->0 + j * PAGE_SIZE)]
                == free_page(),
        c.frames() == a.frames(),
{
    lemma_first_fit(a.frames(), n);
    lemma_page_states();
    let i = first_fit(a.frames(), n)->0;
    let addr = r->0 as int;
    assert(addr - a.base() == i * PAGE_SIZE);
    assert(b.frame_index_of(addr) == i);
    lemma_walk_block(b.frames(), i, n, i);
    assert forall|j: int| 0 <= j < n implies #[trigger] a.frame_index_of(r->0 + j * PAGE_SIZE)
        == i + j by {
        assert(r->0 + j * PAGE_SIZE - a.base() == (i + j) * PAGE_SIZE);
    }
    assert forall|j: int| 0 <= j < a.count() implies #[trigger] c.frames()[j] == a.frames()[j] by {
        if i <= j < i + n {
            assert(!a.frames()[j].is_allocated());
            assert(is_valid_state(a.frames()[j]));
        }
    }
    assert(c.frames() =~= a.frames());
}

/// A request for zero frames returns no block and changes no descriptor.
pub proof fn lemma_allocate_zero(a: PageAllocator, b: PageAllocator, r: Option<usize>)
    requires
        a.allocation_outcome(0, &b, r),
    ensures
        r is None,
        b.frames() == a.frames(),
{
}

/// An allocation never changes a frame that was already allocated; one that
/// returns no block changes nothing, and it returns none exactly when no
/// candidate run of `n` free frames is left.
pub proof fn lemma_allocate_keeps_allocated(
    a: PageAllocator,
    b: PageAllocator,
    n: int,
    r: Option<usize>,
)
    requires
        a.wf(),
        a.allocation_outcome(n, &b, r),
    ensures
        forall|j: int|
            0 <= j < a.count() && (#[trigger] a.frames()[j]).is_allocated() ==> b.frames()[j]
                == a.frames()[j],
        r is None ==> b.frames() == a.frames(),
        n > 0 ==> (r is None <==> forall|m: int|
            0 <= m && m + n < a.count() ==> !run_is_free(a.frames(), m, n)),
{
    lemma_first_fit(a.frames(), n);
}

/// A zero-filling allocation leaves every byte of the returned block zero.
pub proof fn lemma_zero_allocate_block_is_zero(
    a: PageAllocator,
    b: PageAllocator,
    n: int,
    r: Option<usize>,
)
    requires
        a.wf(),
        a.allocation_outcome(n, &b, r),
        match first_fit(a.frames(), n) {
            Some(i) => b.contents() == zero_range(a.contents(), i * PAGE_SIZE, (i + n) * PAGE_SIZE),
            None => b.contents() == a.contents(),
        },
        r is Some,
    ensures
        forall|k: int|
            0 <= k < n * PAGE_SIZE ==> #[trigger] b.contents()[r->0 - b.base() + k] == 0,
{
    lemma_first_fit(a.frames(), n);
    let i = first_fit(a.frames(), n)->0;
    assert((i + n) * PAGE_SIZE <= a.count() * PAGE_SIZE);
}

/// Freeing the null address, an address below the allocation base, or one at
/// or past the end of the region fails and changes no descriptor.
pub proof fn lemma_free_out_of_range(a: PageAllocator, c: PageAllocator, address: int, ok: bool)
    requires
        a.free_outcome(address, &c, ok),
        address == 0 || address < a.base() || address >= a.region_end(),
    ensures
        !ok,
        c.frames() == a.frames(),
{
}

/// After a block is freed, asking again for the same number of frames hands
/// out the same block: first fit meets the freed run before any later frame.
pub proof fn lemma_free_then_reuse(
    a: PageAllocator,
    b: PageAllocator,
    c: PageAllocator,
    d: PageAllocator,
    n: int,
    r: Option<usize>,
    ok: bool,
    r2: Option<usize>,
)
    requires
        a.wf(),
        n > 0,
        a.allocation_outcome(n, &b, r),
        r is Some,
        r->0 < a.region_end(),
        b.free_outcome(r->0 as int, &c, ok),
        c.allocation_outcome(n, &d, r2),
    ensures
        r2 == r,
        d.frames() == b.frames(),
{
    lemma_allocate_then_free(a, b, c, n, r, ok);
}


/// Where the scan of a block that reaches frame `k` stops: at a tail frame, at
/// a frame that is not allocated, or at the end of the index.
pub open spec fn run_end(frames: Seq<Page>, k: int) -> int
    decreases frames.len() - k,
{
    if k < 0 || k >= frames.len() {
        k
    } else if frames[k].is_last() || !frames[k].is_allocated() {
        k
    } else {
        run_end(frames, k + 1)
    }
}

proof fn lemma_run_end(frames: Seq<Page>, k: int)
    requires
        0 <= k,
    ensures
        k <= run_end(frames, k),
        k <= frames.len() ==> run_end(frames, k) <= frames.len(),
    decreases frames.len() - k,
{
    if 0 <= k < frames.len() && !frames[k].is_last() && frames[k].is_allocated() {
        lemma_run_end(frames, k + 1);
    }
}

/// The report line of the block scanned from frame `s` to frame `e`; a scan
/// that did not end at a tail frame is announced first.
pub open spec fn block_line(frames: Seq<Page>, base: int, s: int, e: int) -> Seq<u8> {
    let broken = !(0 <= e < frames.len() && frames[e].is_last());
    (if broken {
        "invalid page allocation found".spec_bytes()
    } else {
        Seq::empty()
    }) + "page block allocated :".spec_bytes() + address_token((base + s * PAGE_SIZE) as u64)
        + "-->".spec_bytes() + address_token((base + e * PAGE_SIZE) as u64) + ".".spec_bytes()
        + seq![10u8]
}

/// The report lines of the blocks found scanning from frame `i` on.
pub open spec fn report_from(frames: Seq<Page>, base: int, i: int) -> Seq<u8>
    decreases frames.len() + 1 - i
        via report_from_decreases

{
    if i < 0 || i >= frames.len() {
        Seq::empty()
    } else if !frames[i].is_allocated() {
        report_from(frames, base, i + 1)
    } else {
        let e = run_end(frames, i);
        block_line(frames, base, i, e) + report_from(frames, base, e + 1)
    }
}

#[via_fn]
proof fn report_from_decreases(frames: Seq<Page>, base: int, i: int) {
    if 0 <= i < frames.len() && frames[i].is_allocated() {
        lemma_run_end(frames, i);
    }
}

/// The whole allocation report of an allocator.
pub open spec fn allocation_report(index: &PageAllocator) -> Seq<u8> {
    "Page Allocations".spec_bytes() + seq![10u8] + report_from(index.frames(), index.base(), 0)
}

/// Writes to `uart` a header line, then for each block found in the index the
/// payload addresses of its first and last frames.
pub fn print_page_allocations(index: &PageAllocator, uart: &mut UART)
    requires
        index.wf(),
    ensures
        final(uart).address() == old(uart).address(),
        final(uart).output() == old(uart).output() + allocation_report(index),
{
    uart.writeln("Page Allocations");
    let ghost frames = index.frames();
    let ghost base = index.base();
    let ghost head = old(uart).output() + "Page Allocations".spec_bytes() + seq![10u8];
    let page_count = index.pages.len();
    let mut i: usize = 0;
    while i < page_count
        invariant
            index.wf(),
            frames == index.frames(),
            base == index.base(),
            page_count == frames.len(),
            i <= page_count + 1,
            uart.address() == old(uart).address(),
            uart.output() + report_from(frames, base, i as int) == head + report_from(
                frames,
                base,
                0,
            ),
        decreases page_count + 1 - i,
    {
        if index.pages[i].allocated() {
            let start = i;
            proof {
                lemma_run_end(frames, i as int);
            }
            while i < page_count && index.pages[i].allocated() && !index.pages[i].last()
                invariant
                    frames == index.frames(),
                    page_count == frames.len(),
                    start <= i <= page_count,
                    run_end(frames, start as int) == run_end(frames, i as int),
                decreases page_count - i,
            {
                i += 1;
            }
            let ghost before = uart.output();
            if i >= page_count || !index.pages[i].last() {
                uart.write("invalid page allocation found");
            }
            uart.write("page block allocated :");
            let start_address = index.page_address(start);
            uart.write_address(start_address);
            uart.write("-->");
            let end_address = index.page_address(i);
            uart.write_address(end_address);
            uart.writeln(".");
            assert(uart.output() =~= before + block_line(frames, base, start as int, i as int));
        }
        i += 1;
    }
}

} // verus!
