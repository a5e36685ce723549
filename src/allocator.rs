use vstd::prelude::*;
use crate::uefi::{EfiMemoryDescriptor, MemoryMapHolder, is_usable};
use vstd::arithmetic::div_mod::{lemma_fundamental_div_mod, lemma_mod_bound, lemma_mod_multiples_basic};

verus! {

/// `2^k`.
pub open spec fn pow2(k: nat) -> nat
    decreases k,
{
    if k == 0 {
        1
    } else {
        2 * pow2((k - 1) as nat)
    }
}

/// `n` is a power of two.
pub open spec fn is_pow2(n: int) -> bool {
    exists|k: nat| pow2(k) == n
}

/// The least power of two that is at least `v` (for `v >= 1`).
pub open spec fn next_pow2(v: int) -> int {
    choose|p: int| is_pow2(p) && v <= p < 2 * v
}

proof fn lemma_pow2_positive(k: nat)
    ensures
        pow2(k) >= 1,
    decreases k,
{
    if k > 0 {
        lemma_pow2_positive((k - 1) as nat);
    }
}

proof fn lemma_pow2_grows(a: nat, b: nat)
    requires
        a < b,
    ensures
        pow2(b) >= 2 * pow2(a),
    decreases b,
{
    if b > a + 1 {
        lemma_pow2_grows(a, (b - 1) as nat);
        lemma_pow2_positive(a);
    }
}

/// Only one power of two lies in `[v, 2v)`: it is `next_pow2(v)`.
pub proof fn lemma_next_pow2_unique(p: int, v: int)
    requires
        is_pow2(p),
        v <= p < 2 * v,
    ensures
        next_pow2(v) == p,
{
    let q = next_pow2(v);
    assert(is_pow2(q) && v <= q < 2 * v);
    let a = choose|a: nat| pow2(a) == p;
    let b = choose|b: nat| pow2(b) == q;
    if a < b {
        lemma_pow2_grows(a, b);
    } else if b < a {
        lemma_pow2_grows(b, a);
    }
}

/// A multiple of one header is a multiple of every smaller power of two.
proof fn lemma_header_multiple_aligned(p: int, a: int)
    requires
        is_pow2(a),
        a < HEADER_SIZE,
        p % (HEADER_SIZE as int) == 0,
    ensures
        p % a == 0,
{
    let k = choose|k: nat| pow2(k) == a;
    reveal_with_fuel(pow2, 6);
    if k >= 5 {
        lemma_pow2_grows(4, k);
    }
    assert(p % 32 == 0 ==> p % 16 == 0 && p % 8 == 0 && p % 4 == 0 && p % 2 == 0 && p % 1 == 0) by (nonlinear_arith);
}

/// The largest value whose next power of two still fits in a `usize`.
pub open spec fn max_roundable() -> int {
    usize::MAX as int / 2 + 1
}

/// The smallest power of two that is at least `v`.
///
/// Fails with "Out of range" for `v == 0`, and for `v` above half the
/// address space plus one, whose next power of two does not fit in a
/// `usize`.
pub fn round_up_to_nearest_pow2(v: usize) -> (r: Result<usize, &'static str>)
    ensures
        r is Ok <==> 1 <= v <= max_roundable(),
        r matches Err(e) ==> e@ == "Out of range"@,
        r matches Ok(p) ==> is_pow2(p as int) && v <= p && p < 2 * v,
        r matches Ok(p) ==> p == next_pow2(v as int),
{
    if v == 0 || v > usize::MAX / 2 + 1 {
        return Err("Out of range");
    }
    let mut p: usize = 1;
    let ghost mut k: nat = 0;
    while p < v
        invariant
            1 <= v <= max_roundable(),
            1 <= p,
            p == pow2(k),
            p < 2 * v,
        decreases 2 * v - p,
    {
        p = p * 2;
        proof {
            k = k + 1;
        }
    }
    proof {
        lemma_next_pow2_unique(p as int, v as int);
    }
    Ok(p)
}

/// Bytes that one block header takes in memory; a power of two, so that a
/// header fits right below any address aligned to it.
pub const HEADER_SIZE: usize = 32;

/// Bytes in one page of the firmware memory map.
pub const PAGE_SIZE: usize = 4096;

/// One block of the heap, as its header records it.
///
/// The header sits at `addr` and governs the bytes `[addr, addr + size)`,
/// itself included, so that the block ends at `addr + size` and its data
/// region is `[addr + HEADER_SIZE, addr + size)`. For an allocated block that
/// data region is exactly the rounded request that it was carved for.
#[derive(Clone, Copy, Debug, PartialEq, Eq, Structural)]
pub struct Header {
    pub addr: usize,
    pub size: usize,
    pub is_allocated: bool,
}

/// The address just past the block.
pub open spec fn block_end(h: Header) -> int {
    h.addr + h.size
}

/// The block has room for `size` bytes, alignment slack of `align`, and two
/// new headers.
pub open spec fn can_provide_spec(h: Header, size: int, align: int) -> bool {
    h.size >= size + 2 * HEADER_SIZE + align
}

/// The block is free and can serve `size` bytes aligned to `align`.
pub open spec fn fits(h: Header, size: int, align: int) -> bool {
    !h.is_allocated && can_provide_spec(h, size, align)
}

/// `x` rounded down to a multiple of `align`.
pub open spec fn round_down(x: int, align: int) -> int {
    x - x % align
}

/// Where an allocation of `size` bytes aligned to `align` starts when it is
/// carved from the tail of `h`.
pub open spec fn carve_addr(h: Header, size: int, align: int) -> int {
    round_down(block_end(h) - size, align)
}

/// What `h` becomes when `size` bytes aligned to `align` are carved from its
/// tail: the shrunk free block, the allocated block, and, when alignment left
/// a gap before the old end, an allocated padding block over that gap.
pub open spec fn split_block(h: Header, size: int, align: int) -> Seq<Header> {
    let c = carve_addr(h, size, align);
    let rest = Header { addr: h.addr, size: (c - HEADER_SIZE - h.addr) as usize, is_allocated: false };
    let taken = Header {
        addr: (c - HEADER_SIZE) as usize,
        size: (size + HEADER_SIZE) as usize,
        is_allocated: true,
    };
    if c + size == block_end(h) {
        seq![rest, taken]
    } else {
        let padding = Header {
            addr: (c + size) as usize,
            size: (block_end(h) - c - size) as usize,
            is_allocated: true,
        };
        seq![rest, taken, padding]
    }
}

impl Header {
    /// A fresh header at `addr`: free, governing nothing yet.
    pub fn new_from_addr(addr: usize) -> (r: Header)
        ensures
            r == (Header { addr, size: 0, is_allocated: false }),
    {
        Header { addr, size: 0, is_allocated: false }
    }

    /// The block can hold `size` bytes with alignment slack `align` and two
    /// new headers.
    pub fn can_provide(&self, size: usize, align: usize) -> (r: bool)
        ensures
            r == can_provide_spec(*self, size as int, align as int),
    {
        size <= usize::MAX - 2 * HEADER_SIZE && align <= usize::MAX - 2 * HEADER_SIZE - size
            && self.size >= size + 2 * HEADER_SIZE + align
    }

    pub fn is_allocated(&self) -> (r: bool)
        ensures
            r == self.is_allocated,
    {
        self.is_allocated
    }

    /// The address just past the block.
    pub fn end_addr(&self) -> (r: usize)
        requires
            block_end(*self) <= usize::MAX,
        ensures
            r == block_end(*self),
    {
        self.addr + self.size
    }

    /// Carves `size` bytes aligned to `align` from the tail of this block:
    /// the start of the carved data and the blocks that replace this one in
    /// the chain, or `None` when the block is taken or too small.
    pub fn provide(&self, size: usize, align: usize) -> (r: Option<(usize, Vec<Header>)>)
        requires
            block_end(*self) <= usize::MAX,
            align > 0,
        ensures
            r is None <==> !fits(*self, size as int, align as int),
            r matches Some((p, seg)) ==> p == carve_addr(*self, size as int, align as int)
                && seg@ == split_block(*self, size as int, align as int),
    {
        if self.is_allocated() || !self.can_provide(size, align) {
            return None;
        }
        let end = self.end_addr();
        let x = end - size;
        proof {
            lemma_mod_bound(x as int, align as int);
        }
        let carved = x - x % align;
        let rest = Header { addr: self.addr, size: carved - HEADER_SIZE - self.addr, is_allocated: false };
        let taken = Header { addr: carved - HEADER_SIZE, size: size + HEADER_SIZE, is_allocated: true };
        let mut seg: Vec<Header> = Vec::new();
        seg.push(rest);
        seg.push(taken);
        if carved + size != end {
            seg.push(Header { addr: carved + size, size: end - carved - size, is_allocated: true });
        }
        proof {
            assert(seg@ =~= split_block(*self, size as int, align as int));
        }
        Some((carved, seg))
    }
}

/// Why an allocation request failed.
#[derive(Clone, Copy, Debug, PartialEq, Eq, Structural)]
pub enum AllocError {
    /// The request is for zero bytes, or for more than the largest power of
    /// two that a `usize` holds; no block was looked at.
    SizeOutOfRange,
    /// No free block in the chain can serve the request.
    Exhausted,
}

/// The size a request is served with: its next power of two, and at least
/// one header.
pub open spec fn request_size(size: int) -> int {
    let p = next_pow2(size);
    if p < HEADER_SIZE {
        HEADER_SIZE as int
    } else {
        p
    }
}

/// The alignment a request is served with: at least one header.
pub open spec fn request_align(align: int) -> int {
    if align < HEADER_SIZE {
        HEADER_SIZE as int
    } else {
        align
    }
}

/// `[a, b)` lies inside one of the `regions`, each given as `(start, end)`.
pub open spec fn within(regions: Seq<(int, int)>, a: int, b: int) -> bool {
    exists|k: int| #![trigger regions[k]] 0 <= k < regions.len() && regions[k].0 <= a && b <= regions[k].1
}

/// Some free block of `chain` can serve `size` bytes aligned to `align`.
pub open spec fn any_fits(chain: Seq<Header>, size: int, align: int) -> bool {
    exists|i: int| 0 <= i < chain.len() && fits(#[trigger] chain[i], size, align)
}

/// Block `i` is the first in chain order that can serve the request.
pub open spec fn is_first_fit(chain: Seq<Header>, i: int, size: int, align: int) -> bool {
    &&& 0 <= i < chain.len()
    &&& fits(chain[i], size, align)
    &&& forall|j: int| 0 <= j < i ==> !fits(#[trigger] chain[j], size, align)
}

/// The position of the first block in chain order that can serve the request.
pub open spec fn first_fit(chain: Seq<Header>, size: int, align: int) -> int {
    choose|i: int| is_first_fit(chain, i, size, align)
}

/// The chain after block `i` has served the request from its tail.
pub open spec fn split_chain(chain: Seq<Header>, i: int, size: int, align: int) -> Seq<Header> {
    chain.take(i) + split_block(chain[i], size, align) + chain.skip(i + 1)
}

/// A block that can serve the request, with none before it that can, is the
/// one `first_fit` names.
pub proof fn lemma_first_fit_unique(chain: Seq<Header>, i: int, size: int, align: int)
    requires
        is_first_fit(chain, i, size, align),
    ensures
        first_fit(chain, size, align) == i,
{
    let j = first_fit(chain, size, align);
    assert(is_first_fit(chain, j, size, align));
    if j < i {
        assert(!fits(chain[j], size, align));
    } else if i < j {
        assert(!fits(chain[i], size, align));
    }
}

/// The carved allocation and the blocks that replace `h` all lie inside `h`,
/// and the allocation is aligned.
proof fn lemma_split_inside(h: Header, size: int, align: int)
    requires
        fits(h, size, align),
        block_end(h) <= usize::MAX,
        size >= 1,
        align >= 1,
    ensures
        h.addr + HEADER_SIZE < carve_addr(h, size, align),
        carve_addr(h, size, align) + size <= block_end(h),
        carve_addr(h, size, align) % align == 0,
        forall|j: int| 0 <= j < split_block(h, size, align).len() ==> {
            let b = #[trigger] split_block(h, size, align)[j];
            &&& h.addr <= b.addr
            &&& block_end(b) <= block_end(h)
        },
{
    let x = block_end(h) - size;
    lemma_mod_bound(x, align);
    lemma_fundamental_div_mod(x, align);
    lemma_mod_multiples_basic(x / align, align);
    assert(align * (x / align) == (x / align) * align) by (nonlinear_arith);
    let c = carve_addr(h, size, align);
    let seg = split_block(h, size, align);
    assert(seg[0].addr == h.addr && block_end(seg[0]) == c - HEADER_SIZE);
    assert(seg[1].addr == c - HEADER_SIZE && block_end(seg[1]) == c + size);
    if seg.len() == 3 {
        assert(seg[2].addr == c + size && block_end(seg[2]) == block_end(h));
    }
}

/// A request that succeeds leaves the chain inside the registered regions.
proof fn lemma_split_chain_within(
    chain: Seq<Header>,
    regions: Seq<(int, int)>,
    i: int,
    size: int,
    align: int,
)
    requires
        0 <= i < chain.len(),
        fits(chain[i], size, align),
        block_end(chain[i]) <= usize::MAX,
        size >= 1,
        align >= 1,
        forall|j: int| 0 <= j < chain.len() ==> within(regions, (#[trigger] chain[j]).addr as int, block_end(chain[j])),
    ensures
        forall|j: int| 0 <= j < split_chain(chain, i, size, align).len() ==> within(
            regions,
            (#[trigger] split_chain(chain, i, size, align)[j]).addr as int,
            block_end(split_chain(chain, i, size, align)[j]),
        ),
{
    let h = chain[i];
    let seg = split_block(h, size, align);
    let nc = split_chain(chain, i, size, align);
    lemma_split_inside(h, size, align);
    assert(within(regions, h.addr as int, block_end(h)));
    let k = choose|k: int| #![trigger regions[k]] 0 <= k < regions.len() && regions[k].0 <= h.addr && block_end(h) <= regions[k].1;
    assert forall|j: int| 0 <= j < nc.len() implies within(regions, (#[trigger] nc[j]).addr as int, block_end(nc[j])) by {
        if j < i {
            assert(nc[j] == chain[j]);
        } else if j < i + seg.len() {
            assert(nc[j] == seg[j - i]);
            assert(regions[k].0 <= nc[j].addr && block_end(nc[j]) <= regions[k].1);
        } else {
            assert(nc[j] == chain[j - seg.len() + 1]);
        }
    }
}

/// Block `i` is the first in chain order whose data starts at `ptr`.
pub open spec fn is_first_at(chain: Seq<Header>, i: int, ptr: int) -> bool {
    &&& 0 <= i < chain.len()
    &&& chain[i].addr + HEADER_SIZE == ptr
    &&& forall|j: int| 0 <= j < i ==> (#[trigger] chain[j]).addr + HEADER_SIZE != ptr
}

/// Some block's data starts at `ptr`.
pub open spec fn any_at(chain: Seq<Header>, ptr: int) -> bool {
    exists|i: int| 0 <= i < chain.len() && (#[trigger] chain[i]).addr + HEADER_SIZE == ptr
}

/// The position of the first block whose data starts at `ptr`.
pub open spec fn block_at(chain: Seq<Header>, ptr: int) -> int {
    choose|i: int| is_first_at(chain, i, ptr)
}

/// The chain after the block whose data starts at `ptr` is handed back: that
/// block is marked free, in place, and nothing else changes.
pub open spec fn freed_chain(chain: Seq<Header>, ptr: int) -> Seq<Header> {
    if any_at(chain, ptr) {
        let i = block_at(chain, ptr);
        chain.update(i, Header { is_allocated: false, ..chain[i] })
    } else {
        chain
    }
}

proof fn lemma_block_at_unique(chain: Seq<Header>, i: int, ptr: int)
    requires
        is_first_at(chain, i, ptr),
    ensures
        block_at(chain, ptr) == i,
{
    let j = block_at(chain, ptr);
    assert(is_first_at(chain, j, ptr));
    if j < i {
        assert(chain[j].addr + HEADER_SIZE != ptr);
    } else if i < j {
        assert(chain[i].addr + HEADER_SIZE != ptr);
    }
}

/// Where a firmware map entry puts a heap region, as `(start, size)`.
///
/// The page at address zero is never handed out, so that no allocation can
/// start at the null address: an entry starting there loses its first page.
/// What is left must exceed one page and end inside the address space;
/// otherwise the entry gives no region.
pub open spec fn descriptor_extent(d: EfiMemoryDescriptor) -> Option<(int, int)> {
    let start = d.physical_start as int;
    let size = d.number_of_pages * PAGE_SIZE;
    let s = if start == 0 { PAGE_SIZE as int } else { start };
    let z = if start != 0 { size } else if size >= PAGE_SIZE { size - PAGE_SIZE } else { 0 };
    if z <= PAGE_SIZE || s + z > usize::MAX {
        None
    } else {
        Some((s, z))
    }
}

/// The free block that a map entry adds to the front of the chain, if any.
pub open spec fn free_block_of(d: EfiMemoryDescriptor) -> Seq<Header> {
    match descriptor_extent(d) {
        Some((s, z)) => seq![Header { addr: s as usize, size: z as usize, is_allocated: false }],
        None => Seq::empty(),
    }
}

/// The region, as `(start, end)`, that a map entry registers, if any.
pub open spec fn region_of(d: EfiMemoryDescriptor) -> Seq<(int, int)> {
    match descriptor_extent(d) {
        Some((s, z)) => seq![(s, s + z)],
        None => Seq::empty(),
    }
}

/// The blocks that registering the usable entries of `ds`, in order, puts at
/// the front of the chain: the last one registered comes first.
pub open spec fn registered(ds: Seq<EfiMemoryDescriptor>) -> Seq<Header>
    decreases ds.len(),
{
    if ds.len() == 0 {
        Seq::empty()
    } else {
        let rest = registered(ds.drop_last());
        if is_usable(ds.last()) {
            free_block_of(ds.last()) + rest
        } else {
            rest
        }
    }
}

/// The regions, in order, that registering the usable entries of `ds` adds.
pub open spec fn registered_regions(ds: Seq<EfiMemoryDescriptor>) -> Seq<(int, int)>
    decreases ds.len(),
{
    if ds.len() == 0 {
        Seq::empty()
    } else {
        let rest = registered_regions(ds.drop_last());
        if is_usable(ds.last()) {
            rest + region_of(ds.last())
        } else {
            rest
        }
    }
}

proof fn lemma_first_at_exists(chain: Seq<Header>, ptr: int, i: int)
    requires
        0 <= i < chain.len(),
        chain[i].addr + HEADER_SIZE == ptr,
    ensures
        is_first_at(chain, block_at(chain, ptr), ptr),
    decreases i,
{
    if exists|j: int| 0 <= j < i && (#[trigger] chain[j]).addr + HEADER_SIZE == ptr {
        let j = choose|j: int| 0 <= j < i && (#[trigger] chain[j]).addr + HEADER_SIZE == ptr;
        lemma_first_at_exists(chain, ptr, j);
    } else {
        assert(is_first_at(chain, i, ptr));
    }
}

/// Freeing changes one flag at most: positions, addresses and sizes stay.
proof fn lemma_freed_chain_shape(chain: Seq<Header>, ptr: int)
    ensures
        freed_chain(chain, ptr).len() == chain.len(),
        forall|i: int|
            0 <= i < chain.len() ==> (#[trigger] freed_chain(chain, ptr)[i]).addr == chain[i].addr
                && freed_chain(chain, ptr)[i].size == chain[i].size,
{
    if any_at(chain, ptr) {
        let i = choose|i: int| 0 <= i < chain.len() && (#[trigger] chain[i]).addr + HEADER_SIZE == ptr;
        lemma_first_at_exists(chain, ptr, i);
    }
}

/// Serving a request splits the chosen block into pieces that tile it: the
/// shrunk free block keeps the start, each piece begins where the one before
/// ends, the last ends where the block ended, and the allocated piece's
/// header sits right below the address handed out, with exactly the rounded
/// request as its data.
pub proof fn lemma_split_tiles_block(h: Header, size: int, align: int)
    requires
        fits(h, size, align),
        block_end(h) <= usize::MAX,
        size >= 1,
        align >= 1,
    ensures
        ({
            let seg = split_block(h, size, align);
            let p = carve_addr(h, size, align);
            &&& seg.len() == 2 || seg.len() == 3
            &&& seg[0].addr == h.addr && !seg[0].is_allocated
            &&& forall|j: int| 0 < j < seg.len() ==> (#[trigger] seg[j]).addr == block_end(seg[j - 1]) && seg[j].is_allocated
            &&& block_end(seg[seg.len() - 1]) == block_end(h)
            &&& seg[1].addr + HEADER_SIZE == p
            &&& block_end(seg[1]) == p + size
        }),
{
    lemma_split_inside(h, size, align);
}

/// Headers never leave the chain: after a request is served from block `i`,
/// and after any block is handed back, every header that was in the chain is
/// still there at the same address.
pub proof fn lemma_headers_stay_in_chain(chain: Seq<Header>, i: int, size: int, align: int, ptr: int)
    requires
        0 <= i < chain.len(),
    ensures
        forall|j: int|
            0 <= j < chain.len() ==> exists|k: int|
                0 <= k < split_chain(chain, i, size, align).len() && (#[trigger] split_chain(chain, i, size, align)[k]).addr
                    == (#[trigger] chain[j]).addr,
        forall|j: int|
            0 <= j < chain.len() ==> (#[trigger] freed_chain(chain, ptr)[j]).addr == chain[j].addr,
        freed_chain(chain, ptr).len() == chain.len(),
{
    let nc = split_chain(chain, i, size, align);
    let seg = split_block(chain[i], size, align);
    assert forall|j: int| 0 <= j < chain.len() implies exists|k: int|
        0 <= k < nc.len() && (#[trigger] nc[k]).addr == (#[trigger] chain[j]).addr by {
        if j < i {
            assert(nc[j] == chain[j]);
        } else if j == i {
            assert(nc[i] == seg[0]);
        } else {
            assert(nc[j + seg.len() - 1] == chain[j]);
        }
    }
    lemma_freed_chain_shape(chain, ptr);
}

/// No two blocks of the chain share a byte.
pub open spec fn blocks_apart(chain: Seq<Header>) -> bool {
    forall|i: int, j: int|
        0 <= i < j < chain.len() ==> block_end(#[trigger] chain[i]) <= (#[trigger] chain[j]).addr || block_end(chain[j])
            <= chain[i].addr
}

/// Blocks never come to overlap: serving a request, handing a block back,
/// and registering a region that overlaps no block all keep the blocks of the
/// chain apart. So as long as the registered regions do not overlap, no two
/// allocations ever share a byte, nor an allocation and a header.
pub proof fn lemma_blocks_stay_apart(
    chain: Seq<Header>,
    i: int,
    size: int,
    align: int,
    ptr: int,
    d: EfiMemoryDescriptor,
)
    requires
        blocks_apart(chain),
    ensures
        0 <= i < chain.len() && fits(chain[i], size, align) && block_end(chain[i]) <= usize::MAX && size >= 1
            && align >= 1 ==> blocks_apart(split_chain(chain, i, size, align)),
        blocks_apart(freed_chain(chain, ptr)),
        (forall|k: int|
            0 <= k < chain.len() ==> free_block_of(d).len() == 0 || block_end(free_block_of(d)[0]) <= (
            #[trigger] chain[k]).addr || block_end(chain[k]) <= free_block_of(d)[0].addr) ==> blocks_apart(
            free_block_of(d) + chain,
        ),
{
    if 0 <= i < chain.len() && fits(chain[i], size, align) && block_end(chain[i]) <= usize::MAX && size >= 1 && align
        >= 1 {
        let h = chain[i];
        let seg = split_block(h, size, align);
        let nc = split_chain(chain, i, size, align);
        let n = seg.len() as int;
        lemma_split_tiles_block(h, size, align);
        lemma_split_inside(h, size, align);
        assert forall|a: int, b: int| 0 <= a < b < nc.len() implies block_end(#[trigger] nc[a]) <= (#[trigger] nc[b]).addr
            || block_end(nc[b]) <= nc[a].addr by {
            if a < i {
                assert(nc[a] == chain[a]);
                if b < i {
                    assert(nc[b] == chain[b]);
                } else if b < i + n {
                    assert(nc[b] == seg[b - i]);
                    assert(block_end(chain[a]) <= chain[i].addr || block_end(chain[i]) <= chain[a].addr);
                } else {
                    assert(nc[b] == chain[b - n + 1]);
                }
            } else if a < i + n {
                assert(nc[a] == seg[a - i]);
                if b < i + n {
                    assert(nc[b] == seg[b - i]);
                    if b - i == 2 {
                        assert(seg[2].addr == block_end(seg[1]));
                        assert(block_end(seg[0]) <= seg[1].addr);
                    } else {
                        assert(seg[1].addr == block_end(seg[0]));
                    }
                } else {
                    assert(nc[b] == chain[b - n + 1]);
                    assert(block_end(chain[i]) <= chain[b - n + 1].addr || block_end(chain[b - n + 1]) <= chain[i].addr);
                }
            } else {
                assert(nc[a] == chain[a - n + 1]);
                assert(nc[b] == chain[b - n + 1]);
            }
        }
    }
    lemma_freed_chain_shape(chain, ptr);
    let fc = freed_chain(chain, ptr);
    assert forall|a: int, b: int| 0 <= a < b < fc.len() implies block_end(#[trigger] fc[a]) <= (#[trigger] fc[b]).addr
        || block_end(fc[b]) <= fc[a].addr by {
        assert(block_end(chain[a]) <= chain[b].addr || block_end(chain[b]) <= chain[a].addr);
    }
    let fb = free_block_of(d);
    let rc = fb + chain;
    if forall|k: int|
        0 <= k < chain.len() ==> fb.len() == 0 || block_end(fb[0]) <= (#[trigger] chain[k]).addr || block_end(chain[k])
            <= fb[0].addr {
        assert forall|a: int, b: int| 0 <= a < b < rc.len() implies block_end(#[trigger] rc[a]) <= (#[trigger] rc[b]).addr
            || block_end(rc[b]) <= rc[a].addr by {
            let m = fb.len() as int;
            assert(rc[b] == chain[b - m]);
            if a >= m {
                assert(rc[a] == chain[a - m]);
            } else {
                assert(rc[a] == fb[0]);
            }
        }
    }
}

/// Handing blocks back never merges them: after two allocations are freed in
/// turn, the chain holds the same blocks at the same addresses with the same
/// sizes, and a request then succeeds only where one block alone, as large as
/// it already was before the frees, can serve it. Freed neighbours never add
/// up.
pub proof fn lemma_freeing_never_merges(chain: Seq<Header>, pa: int, pb: int, size: int, align: int)
    ensures
        ({
            let after = freed_chain(freed_chain(chain, pa), pb);
            &&& after.len() == chain.len()
            &&& forall|i: int|
                0 <= i < chain.len() ==> (#[trigger] after[i]).addr == chain[i].addr && after[i].size
                    == chain[i].size
            &&& any_fits(after, size, align) ==> exists|i: int|
                0 <= i < chain.len() && !after[i].is_allocated && can_provide_spec(#[trigger] chain[i], size, align)
        }),
{
    let mid = freed_chain(chain, pa);
    let after = freed_chain(mid, pb);
    lemma_freed_chain_shape(chain, pa);
    lemma_freed_chain_shape(mid, pb);
    if any_fits(after, size, align) {
        let i = choose|i: int| 0 <= i < after.len() && fits(#[trigger] after[i], size, align);
        assert(mid[i].size == chain[i].size);
        assert(can_provide_spec(chain[i], size, align));
    }
}

/// Only ordinary RAM becomes heap: registering a memory map gives exactly the
/// blocks and regions that registering its usable entries alone gives, and an
/// entry of any other kind adds nothing.
pub proof fn lemma_only_usable_memory_registers(ds: Seq<EfiMemoryDescriptor>, d: EfiMemoryDescriptor)
    ensures
        registered(ds) == registered(ds.filter(|e: EfiMemoryDescriptor| is_usable(e))),
        registered_regions(ds) == registered_regions(ds.filter(|e: EfiMemoryDescriptor| is_usable(e))),
        !is_usable(d) ==> registered(ds.push(d)) == registered(ds) && registered_regions(ds.push(d))
            == registered_regions(ds),
    decreases ds.len(),
{
    let pred = |e: EfiMemoryDescriptor| is_usable(e);
    reveal(Seq::filter);
    assert(ds.push(d).drop_last() =~= ds);
    if ds.len() > 0 {
        lemma_only_usable_memory_registers(ds.drop_last(), d);
        let f = ds.filter(pred);
        let fr = ds.drop_last().filter(pred);
        if is_usable(ds.last()) {
            assert(f == fr.push(ds.last()));
            assert(f.drop_last() =~= fr);
        } else {
            assert(f == fr);
        }
    } else {
        assert(ds.filter(pred) =~= ds);
    }
}

/// The heap: every block that it knows of, free and allocated alike, in one
/// chain ordered by insertion.
///
/// Position `i + 1` of the chain is the block that block `i` links to. Blocks
/// never leave the chain; only their flags and the size of the free ones
/// change. The heap also remembers, as ghost state, the memory regions that
/// were registered with it.
pub struct FirstFitAllocator {
    chain: Vec<Header>,
    regions: Ghost<Seq<(int, int)>>,
}

impl FirstFitAllocator {
    /// The blocks, in chain order.
    pub closed spec fn chain(&self) -> Seq<Header> {
        self.chain@
    }

    /// The registered regions, each as `(start, end)`.
    pub closed spec fn regions(&self) -> Seq<(int, int)> {
        self.regions@
    }

    /// Every registered region starts above address zero and ends inside
    /// the address space, and every block lies inside one of them.
    pub open spec fn wf(&self) -> bool {
        &&& forall|k: int|
            0 <= k < self.regions().len() ==> 0 < (#[trigger] self.regions()[k]).0 && self.regions()[k].1
                <= usize::MAX
        &&& forall|i: int|
            0 <= i < self.chain().len() ==> within(
                self.regions(),
                (#[trigger] self.chain()[i]).addr as int,
                block_end(self.chain()[i]),
            )
    }

    /// An empty heap: no regions, no blocks.
    pub fn new() -> (r: Self)
        ensures
            r.wf(),
            r.chain() == Seq::<Header>::empty(),
            r.regions() == Seq::<(int, int)>::empty(),
    {
        FirstFitAllocator { chain: Vec::new(), regions: Ghost(Seq::empty()) }
    }

    /// The blocks, in chain order.
    pub fn headers(&self) -> (r: &Vec<Header>)
        ensures
            r@ == self.chain(),
    {
        &self.chain
    }

    proof fn lemma_block_in_address_space(&self, i: int)
        requires
            self.wf(),
            0 <= i < self.chain().len(),
        ensures
            0 < self.chain()[i].addr,
            block_end(self.chain()[i]) <= usize::MAX,
    {
        let h = self.chain()[i];
        assert(within(self.regions(), h.addr as int, block_end(h)));
        let k = choose|k: int| #![trigger self.regions()[k]] 0 <= k < self.regions().len() && self.regions()[k].0 <= h.addr && block_end(h) <= self.regions()[k].1;
    }

    /// Serves `size` bytes aligned to `align` from the first block in chain
    /// order that can hold them, carving them from that block's tail.
    ///
    /// The size is rounded up to a power of two and to at least one header,
    /// the alignment to at least one header. The result is the start of the
    /// carved data.
    pub fn alloc_with_options(&mut self, size: usize, align: usize) -> (r: Result<usize, AllocError>)
        requires
            old(self).wf(),
        ensures
            final(self).wf(),
            final(self).regions() == old(self).regions(),
            !(1 <= size <= max_roundable()) ==> r == Err::<usize, AllocError>(AllocError::SizeOutOfRange),
            1 <= size <= max_roundable() ==> (r is Ok <==> any_fits(
                old(self).chain(),
                request_size(size as int),
                request_align(align as int),
            )),
            r is Err ==> final(self).chain() == old(self).chain(),
            r == Err::<usize, AllocError>(AllocError::Exhausted) ==> 1 <= size <= max_roundable(),
            r matches Ok(p) ==> {
                let (rs, ra) = (request_size(size as int), request_align(align as int));
                let i = first_fit(old(self).chain(), rs, ra);
                &&& p == carve_addr(old(self).chain()[i], rs, ra)
                &&& final(self).chain() == split_chain(old(self).chain(), i, rs, ra)
            },
            r matches Ok(p) ==> {
                &&& p > 0
                &&& (p as int) % request_align(align as int) == 0
                &&& size <= request_size(size as int)
                &&& within(old(self).regions(), p as int, p + request_size(size as int))
            },
            r matches Ok(p) ==> is_pow2(align as int) ==> (p as int) % (align as int) == 0,
    {
        let rounded = match round_up_to_nearest_pow2(size) {
            Ok(p) => p,
            Err(_) => {
                return Err(AllocError::SizeOutOfRange);
            },
        };
        let rs = if rounded < HEADER_SIZE {
            HEADER_SIZE
        } else {
            rounded
        };
        let ra = if align < HEADER_SIZE {
            HEADER_SIZE
        } else {
            align
        };
        assert(rs == request_size(size as int) && ra == request_align(align as int));
        let mut i: usize = 0;
        while i < self.chain.len()
            invariant
                self.wf(),
                self.chain() == old(self).chain(),
                self.regions() == old(self).regions(),
                i <= self.chain().len(),
                rs == request_size(size as int),
                ra == request_align(align as int),
                1 <= size <= max_roundable(),
                size <= rs,
                ra >= 1,
                forall|j: int| 0 <= j < i ==> !fits(#[trigger] self.chain()[j], rs as int, ra as int),
            decreases self.chain().len() - i,
        {
            let h = self.chain[i];
            proof {
                self.lemma_block_in_address_space(i as int);
            }
            match h.provide(rs, ra) {
                Some((p, seg)) => {
                    let ghost old_chain = self.chain@;
                    proof {
                        assert(is_first_fit(old_chain, i as int, rs as int, ra as int));
                        lemma_first_fit_unique(old_chain, i as int, rs as int, ra as int);
                        lemma_split_inside(h, rs as int, ra as int);
                        lemma_split_chain_within(old_chain, self.regions(), i as int, rs as int, ra as int);
                        assert(within(self.regions(), h.addr as int, block_end(h)));
                        let k = choose|k: int| #![trigger self.regions()[k]] 0 <= k < self.regions().len() && self.regions()[k].0 <= h.addr && block_end(h) <= self.regions()[k].1;
                        assert(within(self.regions(), p as int, p + rs));
                        if is_pow2(align as int) && align < HEADER_SIZE {
                            lemma_header_multiple_aligned(p as int, align as int);
                        }
                    }
                    self.chain.set(i, seg[0]);
                    self.chain.insert(i + 1, seg[1]);
                    if seg.len() == 3 {
                        assert(i + 2 <= self.chain.len());
                        self.chain.insert(i + 2, seg[2]);
                    }
                    assert(self.chain@ =~= split_chain(old_chain, i as int, rs as int, ra as int));
                    return Ok(p);
                },
                None => {},
            }
            i = i + 1;
        }
        Err(AllocError::Exhausted)
    }

    /// The position of the first block whose data starts at `ptr`: the
    /// header of an allocation sits right below the address handed out.
    pub fn from_allocated_region(&self, ptr: usize) -> (r: Option<usize>)
        ensures
            r is None <==> !any_at(self.chain(), ptr as int),
            r matches Some(i) ==> is_first_at(self.chain(), i as int, ptr as int),
    {
        let mut i: usize = 0;
        while i < self.chain.len()
            invariant
                i <= self.chain().len(),
                forall|j: int| 0 <= j < i ==> (#[trigger] self.chain()[j]).addr + HEADER_SIZE != ptr,
            decreases self.chain().len() - i,
        {
            if ptr >= HEADER_SIZE && self.chain[i].addr == ptr - HEADER_SIZE {
                return Some(i);
            }
            i = i + 1;
        }
        None
    }

    /// Hands back the allocation whose data starts at `ptr`: its block is
    /// marked free where it stands. Nothing is merged with its neighbours.
    /// Returns whether such a block was found.
    pub fn dealloc(&mut self, ptr: usize) -> (found: bool)
        requires
            old(self).wf(),
        ensures
            final(self).wf(),
            final(self).regions() == old(self).regions(),
            found == any_at(old(self).chain(), ptr as int),
            final(self).chain() == freed_chain(old(self).chain(), ptr as int),
    {
        match self.from_allocated_region(ptr) {
            Some(i) => {
                proof {
                    lemma_block_at_unique(self.chain(), i as int, ptr as int);
                }
                let h = self.chain[i];
                self.chain.set(i, Header { is_allocated: false, ..h });
                proof {
                    assert forall|j: int| 0 <= j < self.chain().len() implies within(
                        self.regions(),
                        (#[trigger] self.chain()[j]).addr as int,
                        block_end(self.chain()[j]),
                    ) by {
                        assert(within(self.regions(), old(self).chain()[j].addr as int, block_end(old(self).chain()[j])));
                    }
                }
                true
            },
            None => false,
        }
    }

    /// Registers every entry of the firmware memory map that is ordinary RAM,
    /// in map order, each as a free block at the front of the chain. Entries
    /// of every other kind are left out.
    pub fn init_with_mmap(&mut self, memory_map: &MemoryMapHolder)
        requires
            old(self).wf(),
        ensures
            final(self).wf(),
            final(self).chain() == registered(memory_map.entries()) + old(self).chain(),
            final(self).regions() == old(self).regions() + registered_regions(memory_map.entries()),
    {
        let ds = memory_map.iter();
        let mut j: usize = 0;
        proof {
            assert(ds@.take(0) =~= Seq::<EfiMemoryDescriptor>::empty());
            assert(old(self).chain() =~= registered(ds@.take(0)) + old(self).chain());
            assert(old(self).regions() =~= old(self).regions() + registered_regions(ds@.take(0)));
        }
        while j < ds.len()
            invariant
                self.wf(),
                j <= ds@.len(),
                self.chain() == registered(ds@.take(j as int)) + old(self).chain(),
                self.regions() == old(self).regions() + registered_regions(ds@.take(j as int)),
            decreases ds@.len() - j,
        {
            let d = ds[j];
            proof {
                assert(ds@.take(j + 1).drop_last() =~= ds@.take(j as int));
                assert(ds@.take(j + 1).last() == d);
            }
            if d.is_conventional() {
                self.add_free_from_descriptor(&d);
                proof {
                    assert(self.chain() =~= registered(ds@.take(j + 1)) + old(self).chain());
                    assert(self.regions() =~= old(self).regions() + registered_regions(ds@.take(j + 1)));
                }
            }
            j = j + 1;
        }
        proof {
            assert(ds@.take(ds@.len() as int) =~= ds@);
        }
    }

    /// Registers the range that a firmware map entry describes, whatever its
    /// kind, as one free block at the front of the chain (see
    /// `descriptor_extent` for the ranges that are left out).
    pub fn add_free_from_descriptor(&mut self, desc: &EfiMemoryDescriptor)
        requires
            old(self).wf(),
        ensures
            final(self).wf(),
            final(self).chain() == free_block_of(*desc) + old(self).chain(),
            final(self).regions() == old(self).regions() + region_of(*desc),
    {
        let start = desc.physical_start();
        let pages = desc.number_of_pages();
        if pages > u64::MAX / 4096 {
            return;
        }
        let size = pages * 4096;
        let (s, z) = if start == 0 {
            (4096u64, if size >= 4096 { size - 4096 } else { 0 })
        } else {
            (start, size)
        };
        if z <= 4096 || s > usize::MAX as u64 || z > usize::MAX as u64 - s {
            proof {
                assert(free_block_of(*desc) =~= Seq::<Header>::empty());
                assert(region_of(*desc) =~= Seq::<(int, int)>::empty());
                assert(old(self).chain() =~= free_block_of(*desc) + old(self).chain());
                assert(old(self).regions() =~= old(self).regions() + region_of(*desc));
            }
            return;
        }
        let h = Header { addr: s as usize, size: z as usize, is_allocated: false };
        self.chain.insert(0, h);
        self.regions = Ghost(self.regions@.push((s as int, s + z)));
        proof {
            assert(self.chain() =~= free_block_of(*desc) + old(self).chain());
            assert(self.regions() =~= old(self).regions() + region_of(*desc));
            let n = old(self).regions().len() as int;
            assert forall|j: int| 0 <= j < self.chain().len() implies within(
                self.regions(),
                (#[trigger] self.chain()[j]).addr as int,
                block_end(self.chain()[j]),
            ) by {
                if j == 0 {
                    assert(self.regions()[n] == (s as int, s + z));
                } else {
                    assert(self.chain()[j] == old(self).chain()[j - 1]);
                    assert(within(old(self).regions(), old(self).chain()[j - 1].addr as int, block_end(old(self).chain()[j - 1])));
                    let k = choose|k: int| #![trigger old(self).regions()[k]] 0 <= k < n && old(self).regions()[k].0 <= old(self).chain()[j - 1].addr && block_end(old(self).chain()[j - 1]) <= old(self).regions()[k].1;
                    assert(self.regions()[k] == old(self).regions()[k]);
                }
            }
        }
    }
}

} // verus!
