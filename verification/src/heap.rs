//! A size-class free-list allocator over a fixed arena.
//!
//! Requests of up to `NUM_BINS * GRANULE` bytes that need no stricter
//! alignment than the granule are served in chunks of a fixed size per
//! bin: bin `i` holds chunks of `(i + 1) * GRANULE` bytes.  A freed chunk
//! goes onto its bin's free list and is handed out again by a later request
//! of the same bin (last freed, first reused).  When a bin's list is empty
//! a fresh chunk is bumped from the arena.  Every other request is bumped
//! at a multiple of its own alignment (at least the granule) and is never
//! recycled.
//!
//! Addresses are plain integers: `base` is the address of the arena's first
//! byte, and every address handed out lies in `[base, base + HEAP_SIZE)`.
//! A ghost map records every region the allocator has handed out or holds on
//! a free list; the allocator's type invariant keeps those regions pairwise
//! disjoint and inside the bumped part of the arena, and keeps the counters
//! in step with them.
use vstd::prelude::*;
use vstd::arithmetic::power2::pow2;
use vstd::bits::low_bits_mask;

verus! {

/// Size of the arena in bytes (1 MiB).
pub const HEAP_SIZE: usize = 1024 * 1024;

/// Number of size classes.
pub const NUM_BINS: usize = 16;

/// Size-class granularity, and the alignment of every binned chunk.
pub const GRANULE: usize = 16;

/// What the allocator knows about one region of the arena, keyed by its
/// start address.
#[derive(Debug, PartialEq, Eq)]
pub enum Region {
    /// The chunk sits on the free list of the given bin.
    Free(usize),
    /// The region was handed out for a request of this size and alignment.
    Live(usize, usize),
}

/// `a` is a power of two that a `usize` can hold.
pub open spec fn is_pow2(a: usize) -> bool {
    exists|k: nat| k < usize::BITS && a == pow2(k)
}

/// The least multiple of `a` that is at least `x`.
pub open spec fn round_up(x: int, a: int) -> int {
    ((x + a - 1) / a) * a
}

/// `size` and `align` form a valid layout: `align` is a power of two and
/// `size` rounded up to a multiple of `align` does not exceed `isize::MAX`.
pub open spec fn layout_ok(size: usize, align: usize) -> bool {
    is_pow2(align) && round_up(size as int, align as int) <= isize::MAX
}

/// The size the allocator works with for a request of `size` bytes: a
/// zero-sized request is treated as one byte.
pub open spec fn request_size(size: usize) -> int {
    if size == 0 {
        1
    } else {
        size as int
    }
}

/// The bin serving requests of `size` bytes: the smallest bin whose chunks
/// hold `size` bytes, or none when `size` is zero or larger than the
/// largest chunk.
pub open spec fn size_class(size: int) -> Option<int> {
    if 1 <= size <= NUM_BINS * GRANULE {
        Some((size + GRANULE - 1) / (GRANULE as int) - 1)
    } else {
        None
    }
}

/// The bin serving a request of `size` bytes aligned to `align`: the size
/// class of the request when the granule alignment of binned chunks
/// satisfies `align`, none when the request needs a stricter alignment.
pub open spec fn request_bin(size: usize, align: usize) -> Option<int> {
    if align > GRANULE {
        None
    } else {
        size_class(request_size(size))
    }
}

/// Size in bytes of the chunks of `bin`.
pub open spec fn chunk_size(bin: int) -> int {
    (bin + 1) * GRANULE
}

/// Number of bytes a region occupies in the arena.
pub open spec fn footprint(r: Region) -> int {
    match r {
        Region::Free(bin) => chunk_size(bin as int),
        Region::Live(size, align) => match request_bin(size, align) {
            Some(bin) => chunk_size(bin),
            None => request_size(size),
        },
    }
}

/// Start addresses of the regions handed out and not yet freed.
pub open spec fn live_addrs(m: Map<usize, Region>) -> Set<usize> {
    m.dom().filter(|p: usize| m[p] is Live)
}

/// The regions starting at `p` and `q` do not overlap.
pub open spec fn regions_disjoint(m: Map<usize, Region>, p: usize, q: usize) -> bool {
    p + footprint(m[p]) <= q || q + footprint(m[q]) <= p
}

/// The abstract state of the allocator.
#[verifier::ext_equal]
pub struct AllocatorView {
    /// Address of the arena's first byte.
    pub base: usize,
    /// Offset in the arena of the first byte never handed out.
    pub next: usize,
    /// The free list of each bin; the last element is the head, the chunk
    /// that the next request of that bin receives.
    pub bins: Seq<Seq<usize>>,
    /// Successful allocations so far.
    pub allocs: usize,
    /// Deallocations so far.
    pub frees: usize,
    /// Allocations served from a free list so far.
    pub reuses: usize,
    /// Every region handed out or held on a free list, by start address.
    pub regions: Map<usize, Region>,
}

impl AllocatorView {
    /// The invariant of the allocator.
    pub open spec fn wf(self) -> bool {
        &&& self.bins.len() == NUM_BINS
        &&& self.next <= HEAP_SIZE
        &&& self.base % GRANULE == 0
        &&& self.base + HEAP_SIZE + GRANULE <= usize::MAX
        &&& self.reuses <= self.allocs
        &&& live_addrs(self.regions).finite()
        &&& self.allocs == self.frees + live_addrs(self.regions).len()
        &&& forall|b: int| 0 <= b < NUM_BINS ==> #[trigger] self.bins[b].no_duplicates()
        &&& forall|b: int, i: int|
            0 <= b < NUM_BINS && 0 <= i < self.bins[b].len() ==> {
                &&& self.regions.contains_key(#[trigger] self.bins[b][i])
                &&& self.regions[self.bins[b][i]] == Region::Free(b as usize)
            }
        &&& forall|p: usize| #[trigger] self.regions.contains_key(p) ==> self.region_ok(p)
        &&& forall|p: usize, q: usize|
            #![trigger self.regions.contains_key(p), self.regions.contains_key(q)]
            self.regions.contains_key(p) && self.regions.contains_key(q) && p != q
                ==> regions_disjoint(self.regions, p, q)
    }

    /// The region at `p` lies in the bumped part of the arena, is aligned to
    /// the granule, and a free one is on the free list of its bin.
    pub open spec fn region_ok(self, p: usize) -> bool {
        &&& self.base <= p
        &&& p + footprint(self.regions[p]) <= self.base + self.next
        &&& p % GRANULE == 0
        &&& (self.regions[p] matches Region::Free(b) ==> b < NUM_BINS && self.bins[b as int].contains(p))
    }

    /// The region at `p` was handed out for a request of `size` bytes
    /// aligned to `align`, and is not yet freed.
    pub open spec fn is_live(self, p: usize, size: usize, align: usize) -> bool {
        self.regions.contains_key(p) && self.regions[p] == Region::Live(size, align)
    }

    /// A fresh region of `len` bytes at the next multiple of `align` past
    /// the bumped part of the arena, or failure when it does not fit.
    pub open spec fn bump(self, align: int, len: int, r: Region) -> (AllocatorView, Option<usize>) {
        let start = round_up(self.base + self.next, align) - self.base;
        if start + len > HEAP_SIZE {
            (self, None)
        } else {
            let p = (self.base + start) as usize;
            (
                AllocatorView {
                    next: (start + len) as usize,
                    allocs: (self.allocs + 1) as usize,
                    regions: self.regions.insert(p, r),
                    ..self
                },
                Some(p),
            )
        }
    }

    /// The state after a request of `size` bytes aligned to `align`, and
    /// its result.
    pub open spec fn after_alloc(self, size: usize, align: usize) -> (AllocatorView, Option<usize>) {
        let s = request_size(size);
        let r = Region::Live(size, align);
        match request_bin(size, align) {
            Some(b) => if self.bins[b].len() > 0 {
                let p = self.bins[b].last();
                (
                    AllocatorView {
                        bins: self.bins.update(b, self.bins[b].drop_last()),
                        allocs: (self.allocs + 1) as usize,
                        reuses: (self.reuses + 1) as usize,
                        regions: self.regions.insert(p, r),
                        ..self
                    },
                    Some(p),
                )
            } else {
                self.bump(GRANULE as int, chunk_size(b), r)
            },
            None => self.bump(if align > GRANULE { align as int } else { GRANULE as int }, s, r),
        }
    }

    /// The state after the region at `p`, handed out for a request of
    /// `size` bytes aligned to `align`, is freed: a binned chunk goes onto
    /// its bin's free list, any other region is dropped for good.
    pub open spec fn after_dealloc(self, p: usize, size: usize, align: usize) -> AllocatorView {
        match request_bin(size, align) {
            Some(b) => AllocatorView {
                bins: self.bins.update(b, self.bins[b].push(p)),
                frees: (self.frees + 1) as usize,
                regions: self.regions.insert(p, Region::Free(b as usize)),
                ..self
            },
            None => AllocatorView {
                frees: (self.frees + 1) as usize,
                regions: self.regions.remove(p),
                ..self
            },
        }
    }

    /// A request of `size` bytes aligned to `align` has a bin whose free
    /// list is not empty.
    pub open spec fn serves_from_free_list(self, size: usize, align: usize) -> bool {
        request_bin(size, align) is Some && self.bins[request_bin(size, align)->0].len() > 0
    }

    /// No address computation of a request of `size` bytes aligned to
    /// `align` leaves the range of `usize`.
    pub open spec fn alloc_in_range(self, size: usize, align: usize) -> bool {
        let s = request_size(size);
        let a: int = if align > GRANULE { align as int } else { GRANULE as int };
        request_bin(size, align) is None ==> {
            &&& self.base + self.next + a - 1 <= usize::MAX
            &&& round_up(self.base + self.next, a) - self.base + s <= usize::MAX
        }
    }
}

/// The state of an allocator over the arena at `base` that has done
/// nothing yet.
pub open spec fn empty_view(base: usize) -> AllocatorView {
    AllocatorView {
        base,
        next: 0,
        bins: Seq::new(NUM_BINS as nat, |i: int| Seq::<usize>::empty()),
        allocs: 0,
        frees: 0,
        reuses: 0,
        regions: Map::empty(),
    }
}

/// Marks the end of a free list.
pub const NIL: u32 = 0xffff_ffff;

/// Number of granule-sized slots in the arena.
pub const SLOTS: usize = HEAP_SIZE / GRANULE;

/// The slot of the arena at which address `p` starts.
pub open spec fn slot_of(base: usize, p: usize) -> int {
    (p - base) / (GRANULE as int)
}

/// The fields of the allocator: a bump pointer into the arena, a singly
/// linked free list per bin, and counters of what it has done.  The free
/// lists are linked through a table with one entry per granule-sized slot
/// of the arena: the entry of a free chunk's slot holds the slot of the
/// next chunk on the same list, so pushing and popping take constant time
/// and the allocator needs no memory besides its own fields.
struct HeapState {
    base: usize,
    next: usize,
    heads: [u32; NUM_BINS],
    links: [u32; SLOTS],
    total_allocs: usize,
    total_frees: usize,
    reuses: usize,
    bins: Ghost<Seq<Seq<usize>>>,
    regions: Ghost<Map<usize, Region>>,
}

impl View for HeapState {
    type V = AllocatorView;

    closed spec fn view(&self) -> AllocatorView {
        AllocatorView {
            base: self.base,
            next: self.next,
            bins: self.bins@,
            allocs: self.total_allocs,
            frees: self.total_frees,
            reuses: self.reuses,
            regions: self.regions@,
        }
    }
}

/// The slot of a region: within the arena, and the region starts there.
proof fn lemma_slot_facts(v: AllocatorView, p: usize)
    requires
        v.wf(),
        v.regions.contains_key(p),
    ensures
        0 <= slot_of(v.base, p) < SLOTS,
        v.base + slot_of(v.base, p) * (GRANULE as int) == p,
{
    assert(v.region_ok(p));
    let d = p - v.base;
    vstd::arithmetic::div_mod::lemma_fundamental_div_mod(d, GRANULE as int);
    vstd::arithmetic::div_mod::lemma_sub_mod_noop(p as int, v.base as int, GRANULE as int);
    assert(d % (GRANULE as int) == 0);
}

/// Distinct regions start in distinct slots.
proof fn lemma_slot_injective(v: AllocatorView, p: usize, q: usize)
    requires
        v.wf(),
        v.regions.contains_key(p),
        v.regions.contains_key(q),
        p != q,
    ensures
        slot_of(v.base, p) != slot_of(v.base, q),
{
    lemma_slot_facts(v, p);
    lemma_slot_facts(v, q);
}

proof fn lemma_mask_rounds(y: usize, a: usize)
    requires
        is_pow2(a),
    ensures
        y & !((a - 1) as usize) == (y / a) * a,
{
    let k = choose|k: nat| k < usize::BITS && a == pow2(k);
    vstd::bits::lemma_usize_low_bits_mask_is_mod(y, k);
    vstd::arithmetic::power2::lemma_pow2_pos(k);
    let m = (a - 1) as usize;
    assert(low_bits_mask(k) as usize == m);
    assert(y & m == y % a);
    assert(y & !m == y - (y & m)) by (bit_vector);
    vstd::arithmetic::div_mod::lemma_fundamental_div_mod(y as int, a as int);
}

proof fn lemma_round_up(x: int, a: int)
    requires
        0 <= x,
        0 < a,
    ensures
        x <= round_up(x, a) <= x + a - 1,
        round_up(x, a) % a == 0,
{
    let q = (x + a - 1) / a;
    let r = (x + a - 1) % a;
    vstd::arithmetic::div_mod::lemma_fundamental_div_mod(x + a - 1, a);
    vstd::arithmetic::div_mod::lemma_mod_pos_bound(x + a - 1, a);
    vstd::arithmetic::div_mod::lemma_mod_multiples_basic(q, a);
    assert(a * q == q * a) by (nonlinear_arith);
}

/// A power of two at least the granule is a multiple of it.
proof fn lemma_pow2_multiple_of_granule(a: usize)
    requires
        is_pow2(a),
        a >= GRANULE,
    ensures
        a % GRANULE == 0,
{
    let k = choose|k: nat| k < usize::BITS && a == pow2(k);
    vstd::arithmetic::power2::lemma2_to64();
    if k < 4 {
        vstd::arithmetic::power2::lemma_pow2_strictly_increases(k, 4);
    }
    vstd::arithmetic::power2::lemma_pow2_adds(4, (k - 4) as nat);
    vstd::arithmetic::div_mod::lemma_mod_multiples_basic(pow2((k - 4) as nat) as int, 16);
}

/// A multiple of a multiple of the granule is a multiple of the granule.
proof fn lemma_multiple_of_granule(p: int, a: int)
    requires
        a > 0,
        p % a == 0,
        a % (GRANULE as int) == 0,
    ensures
        p % (GRANULE as int) == 0,
{
    vstd::arithmetic::div_mod::lemma_fundamental_div_mod(p, a);
    vstd::arithmetic::div_mod::lemma_fundamental_div_mod(a, GRANULE as int);
    let t = a / (GRANULE as int);
    let m = p / a;
    assert(p == (t * m) * (GRANULE as int)) by (nonlinear_arith)
        requires
            p == a * m,
            a == (GRANULE as int) * t,
    ;
    vstd::arithmetic::div_mod::lemma_mod_multiples_basic(t * m, GRANULE as int);
}

/// 16 is a power of two.
proof fn lemma_granule_pow2()
    ensures
        is_pow2(GRANULE),
{
    vstd::arithmetic::power2::lemma2_to64();
    assert(GRANULE == pow2(4));
}

/// Rounds `x` up to a multiple of the power of two `a`.
fn align_up(x: usize, a: usize) -> (r: usize)
    requires
        is_pow2(a),
        x + a - 1 <= usize::MAX,
    ensures
        r == round_up(x as int, a as int),
    no_unwind
{
    proof {
        let k = choose|k: nat| k < usize::BITS && a == pow2(k);
        vstd::arithmetic::power2::lemma_pow2_pos(k);
        lemma_mask_rounds((x + a - 1) as usize, a);
    }
    (x + (a - 1)) & !(a - 1)
}

/// The bin serving a request of `size` bytes, or `None` for a zero size or
/// one larger than the largest chunk.
pub fn size_to_bin(size: usize) -> (r: Option<usize>)
    requires
        size + GRANULE - 1 <= usize::MAX,
    ensures
        r matches Some(b) ==> size_class(size as int) == Some(b as int),
        r is None ==> size_class(size as int) is None,
    no_unwind
{
    let slots = (size + 15) / 16;
    assert(slots == 0 <==> size == 0);
    assert(slots > NUM_BINS <==> size > NUM_BINS * GRANULE);
    if slots == 0 || slots > NUM_BINS {
        None
    } else {
        Some(slots - 1)
    }
}

/// Size in bytes of the chunks of `bin`.
pub fn bin_chunk_size(bin: usize) -> (r: usize)
    requires
        (bin + 1) * GRANULE <= usize::MAX,
    ensures
        r == chunk_size(bin as int),
    no_unwind
{
    (bin + 1) * 16
}

impl HeapState {
    /// The slot at the head of the free list of `b`, or `NIL`.
    spec fn head_slot(&self, b: int) -> int {
        let l = self.bins@[b];
        if l.len() == 0 {
            NIL as int
        } else {
            slot_of(self.base, l.last())
        }
    }

    /// The slot that follows the `i`-th chunk (counted from the tail) of
    /// the free list of `b`, or `NIL`.
    spec fn link_slot(&self, b: int, i: int) -> int {
        if i == 0 {
            NIL as int
        } else {
            slot_of(self.base, self.bins@[b][i - 1])
        }
    }

    /// The head table and the link table hold the free lists.
    spec fn storage_ok(&self) -> bool {
        &&& forall|b: int| 0 <= b < NUM_BINS ==> #[trigger] self.heads@[b] as int == self.head_slot(b)
        &&& forall|b: int, i: int|
            0 <= b < NUM_BINS && 0 <= i < self.bins@[b].len() ==> self.links@[slot_of(
                self.base,
                #[trigger] self.bins@[b][i],
            )] as int == self.link_slot(b, i)
    }

    /// The invariant of the allocator.
    spec fn wf(&self) -> bool {
        self@.wf() && self.storage_ok()
    }

    /// An empty allocator over the arena that starts at address `base`:
    /// nothing handed out, every free list empty, every counter zero.
    fn new(base: usize) -> (a: Self)
        requires
            base % GRANULE == 0,
            base + HEAP_SIZE + GRANULE <= usize::MAX,
        ensures
            a.wf(),
            a@ == empty_view(base),
    {
        let a = HeapState {
            base,
            next: 0,
            heads: [NIL; NUM_BINS],
            links: [NIL; SLOTS],
            total_allocs: 0,
            total_frees: 0,
            reuses: 0,
            bins: Ghost(Seq::new(NUM_BINS as nat, |i: int| Seq::<usize>::empty())),
            regions: Ghost(Map::empty()),
        };
        assert(live_addrs(a@.regions) =~= Set::<usize>::empty());
        assert(forall|b: int| 0 <= b < NUM_BINS ==> #[trigger] a.heads@[b] == NIL);
        assert(a@ =~= empty_view(base));
        a
    }

    /// Empties the allocator in place and points it at the arena that
    /// starts at `base`.
    fn reset(&mut self, base: usize)
        requires
            base % GRANULE == 0,
            base + HEAP_SIZE + GRANULE <= usize::MAX,
        ensures
            final(self).wf(),
            final(self)@ == empty_view(base),
        no_unwind
    {
        self.base = base;
        self.next = 0;
        self.total_allocs = 0;
        self.total_frees = 0;
        self.reuses = 0;
        let mut b: usize = 0;
        while b < NUM_BINS
            invariant
                b <= NUM_BINS,
                self.heads@.len() == NUM_BINS,
                self.base == base,
                self.next == 0,
                self.total_allocs == 0,
                self.total_frees == 0,
                self.reuses == 0,
                forall|c: int| 0 <= c < b ==> #[trigger] self.heads@[c] == NIL,
            decreases NUM_BINS - b,
        {
            self.heads[b] = NIL;
            b = b + 1;
        }
        proof {
            self.bins@ = Seq::new(NUM_BINS as nat, |i: int| Seq::<usize>::empty());
            self.regions@ = Map::empty();
            assert(live_addrs(self.regions@) =~= Set::<usize>::empty());
            assert(self@ =~= empty_view(base));
        }
    }

    fn arena_base(&self) -> (r: usize)
        ensures
            r == self@.base,
    {
        self.base
    }

    /// Address of the arena's first byte.
    fn base(&self) -> (r: usize)
        ensures
            r == self@.base,
    {
        self.arena_base()
    }

    /// Size of the arena in bytes.
    fn total(&self) -> (r: usize)
        ensures
            r == HEAP_SIZE,
    {
        HEAP_SIZE
    }

    /// Bytes of the arena bumped so far.
    fn used(&self) -> (r: usize)
        ensures
            r == self@.next,
    {
        self.next
    }

    /// Successful allocations so far.
    fn allocs(&self) -> (r: usize)
        ensures
            r == self@.allocs,
    {
        self.total_allocs
    }

    /// Deallocations so far.
    fn frees(&self) -> (r: usize)
        ensures
            r == self@.frees,
    {
        self.total_frees
    }

    /// Allocations served from a free list so far.
    fn reuses(&self) -> (r: usize)
        ensures
            r == self@.reuses,
    {
        self.reuses
    }

    /// Places a fresh region of `len` bytes at the next multiple of `align`
    /// past the bumped part of the arena, or fails when it does not fit.
    fn bump(&mut self, align: usize, len: usize, Ghost(r): Ghost<Region>) -> (res: Option<usize>)
        requires
            old(self).wf(),
            is_pow2(align),
            align % GRANULE == 0,
            footprint(r) == len,
            r is Live,
            old(self)@.allocs < usize::MAX,
            old(self)@.base + old(self)@.next + align - 1 <= usize::MAX,
            round_up(old(self)@.base + old(self)@.next, align as int) - old(self)@.base + len
                <= usize::MAX,
        ensures
            final(self).storage_ok(),
            (final(self)@, res) == old(self)@.bump(align as int, len as int, r),
        no_unwind
    {
        let aligned = align_up(self.base + self.next, align);
        proof {
            let k = choose|k: nat| k < usize::BITS && align == pow2(k);
            vstd::arithmetic::power2::lemma_pow2_pos(k);
            lemma_round_up(self.base + self.next, align as int);
            lemma_multiple_of_granule(aligned as int, align as int);
        }
        let start = aligned - self.base;
        if start + len > HEAP_SIZE {
            return None;
        }
        let ghost old_view = self@;
        self.next = start + len;
        self.total_allocs = self.total_allocs + 1;
        proof {
            self.regions@ = self.regions@.insert(aligned, r);
        }
        proof {
            assert(self@ =~= old_view.bump(align as int, len as int, r).0);
        }
        Some(aligned)
    }

    /// The free list of `bin` is not empty: its head is not `NIL`.
    fn has_free(&self, bin: usize) -> (r: bool)
        requires
            self.wf(),
            bin < NUM_BINS,
        ensures
            r == (self@.bins[bin as int].len() > 0),
        no_unwind
    {
        proof {
            let b = bin as int;
            let l = self@.bins[b];
            assert(self.heads@[b] as int == self.head_slot(b));
            if l.len() > 0 {
                assert(l[l.len() - 1] == l.last());
                lemma_slot_facts(self@, l.last());
            }
        }
        self.heads[bin] != NIL
    }

    /// Takes the head off the free list of `bin`, which is not empty.
    fn pop_free(&mut self, bin: usize) -> (head: usize)
        requires
            old(self).wf(),
            bin < NUM_BINS,
            old(self)@.bins[bin as int].len() > 0,
        ensures
            head == old(self)@.bins[bin as int].last(),
            final(self)@ == (AllocatorView {
                bins: old(self)@.bins.update(bin as int, old(self)@.bins[bin as int].drop_last()),
                ..old(self)@
            }),
            final(self).storage_ok(),
        no_unwind
    {
        let ghost b = bin as int;
        let ghost l = self@.bins[b];
        let ghost last = l.last();
        proof {
            assert(l[l.len() - 1] == last);
            assert(self@.regions.contains_key(last));
            lemma_slot_facts(self@, last);
            assert(self.heads@[b] as int == self.head_slot(b));
        }
        let s = self.heads[bin];
        let head = self.base + (s as usize) * GRANULE;
        let next_slot = self.links[s as usize];
        proof {
            assert(self.links@[slot_of(self.base, self.bins@[b][l.len() - 1])] as int
                == self.link_slot(b, l.len() - 1));
        }
        self.heads[bin] = next_slot;
        proof {
            self.bins@ = self.bins@.update(b, l.drop_last());
        }
        proof {
            assert forall|c: int| 0 <= c < NUM_BINS implies #[trigger] self.heads@[c] as int
                == self.head_slot(c) by {
                if c == b {
                    if l.len() > 1 {
                        assert(l.drop_last().last() == l[l.len() - 2]);
                    }
                }
            }
            assert forall|c: int, i: int|
                0 <= c < NUM_BINS && 0 <= i < self.bins@[c].len() implies self.links@[slot_of(
                    self.base,
                    #[trigger] self.bins@[c][i],
                )] as int == self.link_slot(c, i) by {
                if c == b {
                    assert(self.bins@[c][i] == l[i]);
                    if i > 0 {
                        assert(self.bins@[c][i - 1] == l[i - 1]);
                    }
                }
            }
        }
        head
    }

    /// Pushes the chunk at `p`, which is handed out and not yet freed, onto
    /// the free list of `bin`.
    fn push_free(&mut self, bin: usize, p: usize, Ghost(size): Ghost<usize>, Ghost(align): Ghost<usize>)
        requires
            old(self).wf(),
            bin < NUM_BINS,
            old(self)@.is_live(p, size, align),
        ensures
            final(self)@ == (AllocatorView {
                bins: old(self)@.bins.update(bin as int, old(self)@.bins[bin as int].push(p)),
                ..old(self)@
            }),
            final(self).storage_ok(),
        no_unwind
    {
        let ghost b = bin as int;
        let ghost l = self@.bins[b];
        let ghost v0 = self@;
        proof {
            lemma_slot_facts(self@, p);
            assert(self.heads@[b] as int == self.head_slot(b));
        }
        let s = (p - self.base) / GRANULE;
        let old_head = self.heads[bin];
        self.links[s] = old_head;
        self.heads[bin] = s as u32;
        proof {
            self.bins@ = self.bins@.update(b, l.push(p));
        }
        proof {
            assert forall|c: int| 0 <= c < NUM_BINS implies #[trigger] self.heads@[c] as int
                == self.head_slot(c) by {
                if c == b {
                    assert(l.push(p).last() == p);
                }
            }
            assert forall|c: int, i: int|
                0 <= c < NUM_BINS && 0 <= i < self.bins@[c].len() implies self.links@[slot_of(
                    self.base,
                    #[trigger] self.bins@[c][i],
                )] as int == self.link_slot(c, i) by {
                if c == b && i == l.len() {
                    if l.len() > 0 {
                        assert(self.bins@[c][i - 1] == l.last());
                    }
                } else {
                    let q = v0.bins[c][i];
                    assert(self.bins@[c][i] == q);
                    assert(v0.regions[q] == Region::Free(c as usize));
                    lemma_slot_injective(v0, p, q);
                    if i > 0 {
                        assert(self.bins@[c][i - 1] == v0.bins[c][i - 1]);
                    }
                    assert(v0.bins[c][i] == self.bins@[c][i]);
                }
            }
        }
    }

    /// Serves a request of `size` bytes aligned to `align`.
    ///
    /// A request of up to the largest chunk size goes to its bin: the head
    /// of the bin's free list is handed out again if there is one, else a
    /// fresh chunk of the bin's size is bumped at the next multiple of the
    /// granule.  A larger request is bumped at the next multiple of
    /// `max(align, GRANULE)`.  `None` when the arena has no room left; the
    /// allocator is then unchanged.
    fn allocate(&mut self, size: usize, align: usize) -> (r: Option<usize>)
        requires
            old(self).wf(),
            layout_ok(size, align),
            old(self)@.allocs < usize::MAX,
            old(self)@.alloc_in_range(size, align),
        ensures
            final(self).wf(),
            (final(self)@, r) == old(self)@.after_alloc(size, align),
        no_unwind
    {
        proof {
            let k = choose|k: nat| k < usize::BITS && align == pow2(k);
            vstd::arithmetic::power2::lemma_pow2_pos(k);
            lemma_round_up(size as int, align as int);
            lemma_alloc_keeps_wf(self@, size, align);
        }
        let s = if size == 0 {
            1
        } else {
            size
        };
        let bin = if align <= GRANULE {
            size_to_bin(s)
        } else {
            None
        };
        match bin {
            Some(bin) => {
                if self.has_free(bin) {
                    let ghost old_view = self@;
                    let head = self.pop_free(bin);
                    self.total_allocs = self.total_allocs + 1;
                    self.reuses = self.reuses + 1;
                    proof {
                        self.regions@ = self.regions@.insert(head, Region::Live(size, align));
                    }
                    proof {
                        assert(self@ =~= old_view.after_alloc(size, align).0);
                    }
                    Some(head)
                } else {
                    let chunk = bin_chunk_size(bin);
                    proof {
                        lemma_granule_pow2();
                    }
                    self.bump(GRANULE, chunk, Ghost(Region::Live(size, align)))
                }
            },
            None => {
                let a = if align > GRANULE {
                    align
                } else {
                    GRANULE
                };
                proof {
                    lemma_granule_pow2();
                    lemma_pow2_multiple_of_granule(a);
                }
                self.bump(a, s, Ghost(Region::Live(size, align)))
            },
        }
    }

    /// Frees the region at `ptr`, handed out for a request of `size` bytes
    /// aligned to `align`.  A binned chunk becomes the head of its bin's free
    /// list; a larger region is not recycled.
    fn deallocate(&mut self, ptr: usize, size: usize, align: usize)
        requires
            old(self).wf(),
            layout_ok(size, align),
            old(self)@.is_live(ptr, size, align),
        ensures
            final(self).wf(),
            final(self)@ == old(self)@.after_dealloc(ptr, size, align),
        no_unwind
    {
        proof {
            let k = choose|k: nat| k < usize::BITS && align == pow2(k);
            vstd::arithmetic::power2::lemma_pow2_pos(k);
            lemma_round_up(size as int, align as int);
        }
        let ghost old_view = self@;
        proof {
            lemma_dealloc_keeps_wf(old_view, ptr, size, align);
        }
        let s = if size == 0 {
            1
        } else {
            size
        };
        let bin = if align <= GRANULE {
            size_to_bin(s)
        } else {
            None
        };
        match bin {
            Some(bin) => {
                self.push_free(bin, ptr, Ghost(size), Ghost(align));
                self.total_frees = self.total_frees + 1;
                proof {
                    self.regions@ = self.regions@.insert(ptr, Region::Free(bin));
                    assert(self@ =~= old_view.after_dealloc(ptr, size, align));
                }
            },
            None => {
                self.total_frees = self.total_frees + 1;
                proof {
                    self.regions@ = self.regions@.remove(ptr);
                    assert(self@ =~= old_view.after_dealloc(ptr, size, align));
                }
            },
        }
    }

    /// Number of chunks on the free list of `bin`, counted by walking it.
    fn bin_count(&self, bin: usize) -> (r: usize)
        requires
            self.wf(),
            bin < NUM_BINS,
        ensures
            r == self@.bins[bin as int].len(),
    {
        let ghost b = bin as int;
        let ghost l = self@.bins[b];
        let ghost base = self.base;
        proof {
            lemma_free_list_bounded(self@, b);
        }
        let mut n: usize = 0;
        let mut node = self.heads[bin];
        proof {
            assert(self.heads@[b] as int == self.head_slot(b));
            if l.len() > 0 {
                assert(l[l.len() - 1] == l.last());
            }
            assert forall|j: int| 0 <= j < l.len() implies 0 <= #[trigger] slot_of(base, l[j]) < SLOTS
                && self.links@[slot_of(base, l[j])] as int == (if j == 0 {
                    NIL as int
                } else {
                    slot_of(base, l[j - 1])
                }) by {
                assert(self@.regions.contains_key(l[j]));
                lemma_slot_facts(self@, l[j]);
                assert(self.links@[slot_of(self.base, self.bins@[b][j])] as int == self.link_slot(b, j));
            }
        }
        while node != NIL
            invariant
                n <= l.len() <= SLOTS,
                n < l.len() ==> node as int == slot_of(base, l[l.len() - 1 - n]),
                n == l.len() ==> node == NIL,
                self.links@.len() == SLOTS,
                forall|j: int| 0 <= j < l.len() ==> 0 <= #[trigger] slot_of(base, l[j]) < SLOTS
                    && self.links@[slot_of(base, l[j])] as int == (if j == 0 {
                        NIL as int
                    } else {
                        slot_of(base, l[j - 1])
                    }),
            decreases l.len() - n,
        {
            let ghost j = l.len() - 1 - n;
            assert(0 <= slot_of(base, l[j]) < SLOTS);
            node = self.links[node as usize];
            n = n + 1;
        }
        n
    }
}

/// The allocator: an arena of `HEAP_SIZE` bytes served in size classes
/// from free lists, with the rest bumped.  Its invariant is that of its
/// view (`AllocatorView::wf`) together with the free lists' storage.
pub struct FreeListAllocator {
    state: HeapState,
}

impl View for FreeListAllocator {
    type V = AllocatorView;

    closed spec fn view(&self) -> AllocatorView {
        self.state@
    }
}

impl FreeListAllocator {
    #[verifier::type_invariant]
    spec fn inv(&self) -> bool {
        self.state.wf()
    }

    /// An empty allocator over the arena that starts at address `base`:
    /// nothing handed out, every free list empty, every counter zero.
    pub fn new(base: usize) -> (a: Self)
        requires
            base % GRANULE == 0,
            base + HEAP_SIZE + GRANULE <= usize::MAX,
        ensures
            a@ == empty_view(base),
            a@.wf(),
    {
        FreeListAllocator { state: HeapState::new(base) }
    }

    /// Empties the allocator in place and points it at the arena that
    /// starts at `base`, as `new` would build it.
    pub fn reset(&mut self, base: usize)
        requires
            base % GRANULE == 0,
            base + HEAP_SIZE + GRANULE <= usize::MAX,
        ensures
            final(self)@ == empty_view(base),
            final(self)@.wf(),
    {
        self.state.reset(base);
    }

    /// Address of the arena's first byte.
    pub fn base(&self) -> (r: usize)
        ensures
            r == self@.base,
            self@.wf(),
    {
        proof {
            use_type_invariant(self);
        }
        self.state.base()
    }

    /// Size of the arena in bytes.
    pub fn total(&self) -> (r: usize)
        ensures
            r == HEAP_SIZE,
            self@.wf(),
    {
        proof {
            use_type_invariant(self);
        }
        self.state.total()
    }

    /// Bytes of the arena bumped so far.
    pub fn used(&self) -> (r: usize)
        ensures
            r == self@.next,
            self@.wf(),
    {
        proof {
            use_type_invariant(self);
        }
        self.state.used()
    }

    /// Successful allocations so far.
    pub fn allocs(&self) -> (r: usize)
        ensures
            r == self@.allocs,
            self@.wf(),
    {
        proof {
            use_type_invariant(self);
        }
        self.state.allocs()
    }

    /// Deallocations so far.
    pub fn frees(&self) -> (r: usize)
        ensures
            r == self@.frees,
            self@.wf(),
    {
        proof {
            use_type_invariant(self);
        }
        self.state.frees()
    }

    /// Allocations served from a free list so far.
    pub fn reuses(&self) -> (r: usize)
        ensures
            r == self@.reuses,
            self@.wf(),
    {
        proof {
            use_type_invariant(self);
        }
        self.state.reuses()
    }

    /// Serves a request of `size` bytes aligned to `align`.
    ///
    /// A request of up to the largest chunk size whose alignment the
    /// granule satisfies goes to its bin: the head of the bin's free list
    /// is handed out again if there is one, else a fresh chunk of the bin's
    /// size is bumped at the next multiple of the granule.  Any other
    /// request is bumped at the next multiple of `max(align, GRANULE)`.
    /// `None` when the arena has no room left; the allocator is then
    /// unchanged.
    pub fn allocate(&mut self, size: usize, align: usize) -> (r: Option<usize>)
        requires
            layout_ok(size, align),
            old(self)@.allocs < usize::MAX,
            old(self)@.alloc_in_range(size, align),
        ensures
            (final(self)@, r) == old(self)@.after_alloc(size, align),
            final(self)@.wf(),
    {
        proof {
            use_type_invariant(&*self);
        }
        self.state.allocate(size, align)
    }

    /// Frees the region at `ptr`, handed out for a request of `size` bytes
    /// aligned to `align`.  A binned chunk becomes the head of its bin's
    /// free list; any other region is not recycled.
    pub fn deallocate(&mut self, ptr: usize, size: usize, align: usize)
        requires
            layout_ok(size, align),
            old(self)@.is_live(ptr, size, align),
        ensures
            final(self)@ == old(self)@.after_dealloc(ptr, size, align),
            final(self)@.wf(),
    {
        proof {
            use_type_invariant(&*self);
        }
        self.state.deallocate(ptr, size, align)
    }

    /// Number of chunks on the free list of `bin`, counted by walking it.
    pub fn bin_count(&self, bin: usize) -> (r: usize)
        requires
            bin < NUM_BINS,
        ensures
            r == self@.bins[bin as int].len(),
            self@.wf(),
    {
        proof {
            use_type_invariant(self);
        }
        self.state.bin_count(bin)
    }
}

/// A fresh region placed past the bumped part of the arena keeps the
/// invariant.
proof fn lemma_bump_keeps_wf(old_view: AllocatorView, align: usize, len: int, r: Region)
    requires
        old_view.wf(),
        is_pow2(align),
        align % GRANULE == 0,
        footprint(r) == len,
        r is Live,
        old_view.allocs < usize::MAX,
    ensures
        old_view.bump(align as int, len, r).0.wf(),
{
    let k = choose|k: nat| k < usize::BITS && align == pow2(k);
    vstd::arithmetic::power2::lemma_pow2_pos(k);
    let aligned_i = round_up(old_view.base + old_view.next, align as int);
    lemma_round_up(old_view.base + old_view.next, align as int);
    lemma_multiple_of_granule(aligned_i, align as int);
    let start = aligned_i - old_view.base;
    if start + len <= HEAP_SIZE {
        let aligned = aligned_i as usize;
        let v = old_view.bump(align as int, len, r).0;
        assert(!old_view.regions.contains_key(aligned)) by {
            if old_view.regions.contains_key(aligned) {
                assert(old_view.region_ok(aligned));
            }
        }
        assert(live_addrs(v.regions) =~= live_addrs(old_view.regions).insert(aligned));
        assert forall|p: usize| #[trigger] v.regions.contains_key(p) implies v.region_ok(p) by {
            if p != aligned {
                assert(old_view.region_ok(p));
            }
        }
        assert forall|p: usize, q: usize|
            #![trigger v.regions.contains_key(p), v.regions.contains_key(q)]
            v.regions.contains_key(p) && v.regions.contains_key(q) && p != q
                implies regions_disjoint(v.regions, p, q) by {
            if p != aligned && q != aligned {
                assert(regions_disjoint(old_view.regions, p, q));
            } else if p == aligned {
                assert(old_view.region_ok(q));
            } else {
                assert(old_view.region_ok(p));
            }
        }
    }
}

/// Handing out the head of a free list keeps the invariant.
proof fn lemma_reuse_keeps_wf(old_view: AllocatorView, size: usize, align: usize)
    requires
        old_view.wf(),
        old_view.allocs < usize::MAX,
        old_view.serves_from_free_list(size, align),
    ensures
        old_view.after_alloc(size, align).0.wf(),
{
    let b = request_bin(size, align)->0;
    let bin = b as usize;
    let v = old_view.after_alloc(size, align).0;
    let head = old_view.bins[b].last();
    assert(old_view.bins[b][old_view.bins[b].len() - 1] == head);
    assert(v.bins == old_view.bins.update(b, old_view.bins[b].drop_last()));
    assert(old_view.regions[head] == Region::Free(bin));
    assert(live_addrs(v.regions) =~= live_addrs(old_view.regions).insert(head));
    assert forall|p: usize| #[trigger] v.regions.contains_key(p) implies v.region_ok(p) by {
        if p != head {
            assert(old_view.region_ok(p));
            if let Region::Free(c) = v.regions[p] {
                let i = choose|i: int| 0 <= i < old_view.bins[c as int].len() && old_view.bins[c as int][i] == p;
                if c == bin {
                    assert(i != old_view.bins[b].len() - 1);
                    assert(v.bins[b][i] == p);
                }
            }
        } else {
            assert(old_view.region_ok(p));
        }
    }
    assert forall|c: int, i: int|
        0 <= c < NUM_BINS && 0 <= i < v.bins[c].len() implies {
            &&& v.regions.contains_key(#[trigger] v.bins[c][i])
            &&& v.regions[v.bins[c][i]] == Region::Free(c as usize)
        } by {
        if c == b {
            assert(v.bins[c][i] == old_view.bins[b][i]);
            assert(old_view.bins[b].no_duplicates());
            assert(old_view.bins[b][i] != head);
        } else {
            assert(v.bins[c][i] == old_view.bins[c][i]);
            assert(old_view.regions[old_view.bins[c][i]] == Region::Free(c as usize));
        }
    }
    assert forall|c: int| 0 <= c < NUM_BINS implies #[trigger] v.bins[c].no_duplicates() by {
        assert(old_view.bins[c].no_duplicates());
    }
    assert forall|p: usize, q: usize|
        #![trigger v.regions.contains_key(p), v.regions.contains_key(q)]
        v.regions.contains_key(p) && v.regions.contains_key(q) && p != q
            implies regions_disjoint(v.regions, p, q) by {
        assert(regions_disjoint(old_view.regions, p, q));
    }
}

/// Serving a request keeps the invariant, whether it succeeds or not.
pub proof fn lemma_alloc_keeps_wf(v: AllocatorView, size: usize, align: usize)
    requires
        v.wf(),
        layout_ok(size, align),
        v.allocs < usize::MAX,
    ensures
        v.after_alloc(size, align).0.wf(),
{
    let s = request_size(size);
    lemma_granule_pow2();
    if v.serves_from_free_list(size, align) {
        lemma_reuse_keeps_wf(v, size, align);
    } else {
        match request_bin(size, align) {
            Some(b) => {
                lemma_bump_keeps_wf(v, GRANULE, chunk_size(b), Region::Live(size, align));
            },
            None => {
                let a = if align > GRANULE {
                    align
                } else {
                    GRANULE
                };
                lemma_pow2_multiple_of_granule(a);
                lemma_bump_keeps_wf(v, a, s, Region::Live(size, align));
            },
        }
    }
}

/// A free list holds at most one chunk per slot of the arena.
proof fn lemma_free_list_bounded(v: AllocatorView, b: int)
    requires
        v.wf(),
        0 <= b < NUM_BINS,
    ensures
        v.bins[b].len() <= SLOTS,
{
    let l = v.bins[b];
    let slots = l.map_values(|p: usize| slot_of(v.base, p));
    assert(l.no_duplicates());
    assert forall|i: int, j: int| 0 <= i < slots.len() && 0 <= j < slots.len() && i != j implies slots[i]
        != slots[j] by {
        assert(v.regions.contains_key(l[i]));
        assert(v.regions.contains_key(l[j]));
        lemma_slot_injective(v, l[i], l[j]);
    }
    slots.unique_seq_to_set();
    let range = vstd::set_lib::set_int_range(0, SLOTS as int);
    assert forall|x: int| slots.to_set().contains(x) implies range.contains(x) by {
        let i = choose|i: int| 0 <= i < slots.len() && slots[i] == x;
        assert(v.regions.contains_key(l[i]));
        lemma_slot_facts(v, l[i]);
    }
    vstd::set_lib::lemma_int_range(0, SLOTS as int);
    vstd::set_lib::lemma_len_subset(slots.to_set(), range);
}

/// Freeing a region handed out for a request keeps the invariant.
pub proof fn lemma_dealloc_keeps_wf(v0: AllocatorView, ptr: usize, size: usize, align: usize)
    requires
        v0.wf(),
        v0.is_live(ptr, size, align),
    ensures
        v0.frees < usize::MAX,
        v0.after_dealloc(ptr, size, align).wf(),
{
    let old_view = v0;
    assert(live_addrs(old_view.regions).contains(ptr));
    assert(live_addrs(old_view.regions).remove(ptr).len() == live_addrs(old_view.regions).len() - 1);
    let v = v0.after_dealloc(ptr, size, align);
    match request_bin(size, align) {
        Some(bb) => {
            let b = bb;
            let bin = b as usize;
            assert(v.bins == old_view.bins.update(b, old_view.bins[b].push(ptr)));
            assert(live_addrs(v.regions) =~= live_addrs(old_view.regions).remove(ptr));
            assert(!old_view.bins[b].contains(ptr)) by {
                if old_view.bins[b].contains(ptr) {
                    let i = choose|i: int| 0 <= i < old_view.bins[b].len() && old_view.bins[b][i] == ptr;
                    assert(old_view.regions[old_view.bins[b][i]] == Region::Free(b as usize));
                }
            }
            assert forall|p: usize| #[trigger] v.regions.contains_key(p) implies v.region_ok(p) by {
                if p != ptr {
                    assert(old_view.region_ok(p));
                    if let Region::Free(c) = v.regions[p] {
                        let i = choose|i: int| 0 <= i < old_view.bins[c as int].len() && old_view.bins[c as int][i] == p;
                        assert(v.bins[c as int][i] == p);
                    }
                } else {
                    assert(old_view.region_ok(p));
                    assert(v.bins[b][v.bins[b].len() - 1] == ptr);
                }
            }
            assert forall|c: int, i: int|
                0 <= c < NUM_BINS && 0 <= i < v.bins[c].len() implies {
                    &&& v.regions.contains_key(#[trigger] v.bins[c][i])
                    &&& v.regions[v.bins[c][i]] == Region::Free(c as usize)
                } by {
                if c == b && i == old_view.bins[b].len() {
                } else {
                    assert(v.bins[c][i] == old_view.bins[c][i]);
                    assert(old_view.regions[old_view.bins[c][i]] == Region::Free(c as usize));
                }
            }
            assert forall|c: int| 0 <= c < NUM_BINS implies #[trigger] v.bins[c].no_duplicates() by {
                assert(old_view.bins[c].no_duplicates());
                if c == b {
                    assert forall|i: int, j: int|
                        0 <= i < v.bins[c].len() && 0 <= j < v.bins[c].len() && i != j
                            implies v.bins[c][i] != v.bins[c][j] by {
                        if i < old_view.bins[b].len() && j < old_view.bins[b].len() {
                        } else if i == old_view.bins[b].len() {
                            assert(old_view.bins[b][j] != ptr);
                        } else {
                            assert(old_view.bins[b][i] != ptr);
                        }
                    }
                }
            }
            assert forall|p: usize, q: usize|
                #![trigger v.regions.contains_key(p), v.regions.contains_key(q)]
                v.regions.contains_key(p) && v.regions.contains_key(q) && p != q
                    implies regions_disjoint(v.regions, p, q) by {
                assert(regions_disjoint(old_view.regions, p, q));
            }
        },
        None => {
            assert(live_addrs(v.regions) =~= live_addrs(old_view.regions).remove(ptr));
            assert forall|p: usize| #[trigger] v.regions.contains_key(p) implies v.region_ok(p) by {
                assert(old_view.region_ok(p));
            }
            assert forall|c: int, i: int|
                0 <= c < NUM_BINS && 0 <= i < v.bins[c].len() implies {
                    &&& v.regions.contains_key(#[trigger] v.bins[c][i])
                    &&& v.regions[v.bins[c][i]] == Region::Free(c as usize)
                } by {
                assert(old_view.regions[old_view.bins[c][i]] == Region::Free(c as usize));
            }
            assert forall|p: usize, q: usize|
                #![trigger v.regions.contains_key(p), v.regions.contains_key(q)]
                v.regions.contains_key(p) && v.regions.contains_key(q) && p != q
                    implies regions_disjoint(v.regions, p, q) by {
                assert(regions_disjoint(old_view.regions, p, q));
            }
        },
    }
}

/// The bin of a request is the smallest one whose chunks hold it: its
/// chunks are at least as large as the request and less than one granule
/// larger.
pub proof fn lemma_size_class_is_smallest_fit(size: int)
    requires
        1 <= size <= NUM_BINS * GRANULE,
    ensures
        size_class(size) matches Some(b) && 0 <= b < NUM_BINS && size <= chunk_size(b) < size
            + GRANULE,
{
}

/// Requests larger than the largest chunk, and zero-sized requests taken
/// as they are, have no bin.
pub proof fn lemma_size_class_none(size: int)
    ensures
        size_class(size) is None <==> (size < 1 || size > NUM_BINS * GRANULE),
{
}

/// Freed chunks are recycled: when a request is served with the chunk at
/// `p` and that chunk is freed, the next request of the same bin is served
/// with the same chunk again.
pub proof fn lemma_freed_chunk_is_reused(
    v: AllocatorView,
    size: usize,
    align: usize,
    size2: usize,
    align2: usize,
)
    requires
        v.wf(),
        request_bin(size, align) is Some,
        request_bin(size2, align2) == request_bin(size, align),
        v.after_alloc(size, align).1 is Some,
    ensures
        ({
            let (v1, r) = v.after_alloc(size, align);
            let p = r->0;
            let v2 = v1.after_dealloc(p, size, align);
            &&& v1.is_live(p, size, align)
            &&& v2.bins[request_bin(size, align)->0].last() == p
            &&& v2.after_alloc(size2, align2).1 == Some(p)
        }),
{
    let b = request_bin(size, align)->0;
    let (v1, r) = v.after_alloc(size, align);
    let p = r->0;
    let v2 = v1.after_dealloc(p, size, align);
    assert(v1.bins.len() == NUM_BINS);
    assert(v2.bins[b] == v1.bins[b].push(p));
}

/// A successful request yields a region that is handed out for that
/// request, lies in the arena, is aligned to the granule and to `align`,
/// and is the head of the bin's free list or else lies past everything
/// bumped before.
pub proof fn lemma_alloc_result(v: AllocatorView, size: usize, align: usize)
    requires
        v.wf(),
        layout_ok(size, align),
        v.allocs < usize::MAX,
        v.after_alloc(size, align).1 is Some,
    ensures
        ({
            let (v1, r) = v.after_alloc(size, align);
            let p = r->0;
            &&& v1.is_live(p, size, align)
            &&& v.base <= p
            &&& p + footprint(Region::Live(size, align)) <= v.base + HEAP_SIZE
            &&& p % GRANULE == 0
            &&& p % align == 0
            &&& (v.serves_from_free_list(size, align) ==> p == v.bins[request_bin(size, align)->0].last()
                && v1.reuses == v.reuses + 1)
            &&& (!v.serves_from_free_list(size, align) ==> v.base + v.next <= p && v1.reuses
                == v.reuses)
            &&& v1.allocs == v.allocs + 1
            &&& v1.frees == v.frees
        }),
{
    let k = choose|k: nat| k < usize::BITS && align == pow2(k);
    vstd::arithmetic::power2::lemma_pow2_pos(k);
    let p = v.after_alloc(size, align).1->0;
    if align <= GRANULE {
        lemma_pow2_divides_granule(align);
    }
    match request_bin(size, align) {
        Some(b) => {
            if v.bins[b].len() > 0 {
                assert(v.bins[b][v.bins[b].len() - 1] == p);
                assert(v.region_ok(p));
            } else {
                lemma_round_up(v.base + v.next, GRANULE as int);
            }
            lemma_multiple_of_granule_divides(p as int, align as int);
        },
        None => {
            let a: int = if align > GRANULE { align as int } else { GRANULE as int };
            lemma_round_up(v.base + v.next, a);
            if align > GRANULE {
                lemma_pow2_multiple_of_granule(align);
            } else {
                lemma_multiple_of_granule_divides(p as int, align as int);
            }
            lemma_multiple_of_granule(p as int, a);
        },
    }
}

/// A power of two no larger than the granule divides it.
proof fn lemma_pow2_divides_granule(align: usize)
    requires
        is_pow2(align),
        align <= GRANULE,
    ensures
        (GRANULE as int) % (align as int) == 0,
{
    let k = choose|k: nat| k < usize::BITS && align == pow2(k);
    vstd::arithmetic::power2::lemma2_to64();
    if k > 4 {
        vstd::arithmetic::power2::lemma_pow2_strictly_increases(4, k);
    }
    vstd::arithmetic::power2::lemma_pow2_adds(k, (4 - k) as nat);
    assert(pow2(k) * pow2((4 - k) as nat) == 16);
    let t = pow2((4 - k) as nat) as int;
    assert(t * (align as int) == 16) by (nonlinear_arith)
        requires
            (align as int) * t == 16,
    ;
    vstd::arithmetic::div_mod::lemma_mod_multiples_basic(t, align as int);
}

/// A multiple of the granule is a multiple of every divisor `d` of it.
proof fn lemma_multiple_of_granule_divides(p: int, d: int)
    requires
        d > 0,
        p % (GRANULE as int) == 0,
        (GRANULE as int) % d == 0,
    ensures
        p % d == 0,
{
    vstd::arithmetic::div_mod::lemma_fundamental_div_mod(p, GRANULE as int);
    vstd::arithmetic::div_mod::lemma_fundamental_div_mod(GRANULE as int, d);
    let m = p / (GRANULE as int);
    let t = (GRANULE as int) / d;
    assert(p == (t * m) * d) by (nonlinear_arith)
        requires
            p == (GRANULE as int) * m,
            GRANULE as int == d * t,
    ;
    vstd::arithmetic::div_mod::lemma_mod_multiples_basic(t * m, d);
}

/// A request that finds no room leaves the allocator as it was.
pub proof fn lemma_alloc_failure_keeps_state(v: AllocatorView, size: usize, align: usize)
    requires
        v.after_alloc(size, align).1 is None,
    ensures
        v.after_alloc(size, align).0 == v,
{
}

/// Two distinct regions handed out and not yet freed do not overlap, and
/// both lie in the arena.
pub proof fn lemma_live_regions_disjoint(
    v: AllocatorView,
    p: usize,
    size1: usize,
    align1: usize,
    q: usize,
    size2: usize,
    align2: usize,
)
    requires
        v.wf(),
        v.is_live(p, size1, align1),
        v.is_live(q, size2, align2),
        p != q,
    ensures
        p + footprint(Region::Live(size1, align1)) <= q || q + footprint(Region::Live(size2, align2))
            <= p,
        v.base <= p && p + footprint(Region::Live(size1, align1)) <= v.base + HEAP_SIZE,
        v.base <= q && q + footprint(Region::Live(size2, align2)) <= v.base + HEAP_SIZE,
{
    assert(regions_disjoint(v.regions, p, q));
    assert(v.region_ok(p));
    assert(v.region_ok(q));
}

/// No region handed out and not yet freed sits on a free list.
pub proof fn lemma_live_region_not_free(v: AllocatorView, p: usize, size: usize, align: usize, b: int)
    requires
        v.wf(),
        v.is_live(p, size, align),
        0 <= b < NUM_BINS,
    ensures
        !v.bins[b].contains(p),
{
    if v.bins[b].contains(p) {
        let i = choose|i: int| 0 <= i < v.bins[b].len() && v.bins[b][i] == p;
        assert(v.regions[v.bins[b][i]] == Region::Free(b as usize));
    }
}

/// Freeing counts one free, and puts a binned chunk at the head of its
/// bin's free list, one more chunk than before; a region without a bin is
/// dropped and every free list stays as it was.
pub proof fn lemma_dealloc_effect(v: AllocatorView, p: usize, size: usize, align: usize)
    requires
        v.wf(),
        v.is_live(p, size, align),
    ensures
        ({
            let v1 = v.after_dealloc(p, size, align);
            &&& v1.base == v.base
            &&& v1.frees == v.frees + 1
            &&& v1.allocs == v.allocs
            &&& v1.reuses == v.reuses
            &&& v1.next == v.next
            &&& (request_bin(size, align) matches Some(b) ==> {
                &&& v1.bins[b].len() == v.bins[b].len() + 1
                &&& v1.bins[b].last() == p
                &&& forall|c: int| 0 <= c < NUM_BINS && c != b ==> v1.bins[c] == v.bins[c]
            })
            &&& (request_bin(size, align) is None ==> v1.bins == v.bins && !v1.regions.contains_key(p))
        }),
{
    assert(live_addrs(v.regions).contains(p));
    assert(live_addrs(v.regions).remove(p).len() == live_addrs(v.regions).len() - 1);
}

/// The counters agree with the regions: successful allocations minus
/// frees is the number of regions handed out and not yet freed, and every
/// reuse is also counted as an allocation.
pub proof fn lemma_stats_consistent(v: AllocatorView)
    requires
        v.wf(),
    ensures
        v.allocs - v.frees == live_addrs(v.regions).len(),
        v.reuses <= v.allocs,
        forall|p: usize| #[trigger] live_addrs(v.regions).contains(p) <==> (v.regions.contains_key(p) && v.regions[p] is Live),
{
}

/// One call on the allocator.
pub enum HeapOp {
    /// `allocate(size, align)`.
    Alloc(usize, usize),
    /// `deallocate(ptr, size, align)`.
    Free(usize, usize, usize),
}

/// The bin a call works on, if any.
pub open spec fn op_bin(op: HeapOp) -> Option<int> {
    match op {
        HeapOp::Alloc(size, align) => request_bin(size, align),
        HeapOp::Free(_, size, align) => request_bin(size, align),
    }
}

impl AllocatorView {
    /// The call may be made in this state: what `allocate` or
    /// `deallocate` requires.
    pub open spec fn op_ok(self, op: HeapOp) -> bool {
        match op {
            HeapOp::Alloc(size, align) => layout_ok(size, align) && self.allocs < usize::MAX
                && self.alloc_in_range(size, align),
            HeapOp::Free(p, size, align) => layout_ok(size, align) && self.is_live(p, size, align),
        }
    }

    /// The state after the call.
    pub open spec fn apply(self, op: HeapOp) -> AllocatorView {
        match op {
            HeapOp::Alloc(size, align) => self.after_alloc(size, align).0,
            HeapOp::Free(p, size, align) => self.after_dealloc(p, size, align),
        }
    }

    /// Each call of `ops`, made in turn, may be made.
    pub open spec fn trace_ok(self, ops: Seq<HeapOp>) -> bool
        decreases ops.len(),
    {
        ops.len() == 0 || (self.op_ok(ops[0]) && self.apply(ops[0]).trace_ok(ops.drop_first()))
    }

    /// The state after the calls of `ops`, made in turn.
    pub open spec fn replay(self, ops: Seq<HeapOp>) -> AllocatorView
        decreases ops.len(),
    {
        if ops.len() == 0 {
            self
        } else {
            self.apply(ops[0]).replay(ops.drop_first())
        }
    }
}

/// The free list `l` of bin `b` after the calls of `ops`, taken as a
/// stack: a free of that bin pushes its chunk, a request of that bin pops
/// the top when there is one, and calls of other bins leave it alone.
pub open spec fn bin_stack(l: Seq<usize>, b: int, ops: Seq<HeapOp>) -> Seq<usize>
    decreases ops.len(),
{
    if ops.len() == 0 {
        l
    } else {
        let l1 = match ops[0] {
            HeapOp::Free(p, size, align) => if request_bin(size, align) == Some(b) {
                l.push(p)
            } else {
                l
            },
            HeapOp::Alloc(size, align) => if request_bin(size, align) == Some(b) && l.len() > 0 {
                l.drop_last()
            } else {
                l
            },
        };
        bin_stack(l1, b, ops.drop_first())
    }
}

/// A request that is made in a well-formed state keeps the arena base,
/// never shrinks the bumped part, counts one allocation exactly when it
/// succeeds, and counts no free.
pub proof fn lemma_alloc_counters(v: AllocatorView, size: usize, align: usize)
    requires
        v.wf(),
        layout_ok(size, align),
        v.allocs < usize::MAX,
    ensures
        ({
            let (v1, r) = v.after_alloc(size, align);
            &&& v1.base == v.base
            &&& v.next <= v1.next <= HEAP_SIZE
            &&& (r is Some <==> v1.allocs == v.allocs + 1)
            &&& (r is None ==> v1 == v)
            &&& v1.frees == v.frees
            &&& v1.reuses <= v1.allocs
        }),
{
    lemma_alloc_keeps_wf(v, size, align);
    if !v.serves_from_free_list(size, align) {
        let a: int = match request_bin(size, align) {
            Some(_) => GRANULE as int,
            None => if align > GRANULE {
                align as int
            } else {
                GRANULE as int
            },
        };
        lemma_round_up(v.base + v.next, a);
    }
}

/// One permitted call keeps the invariant and the arena base, and never
/// shrinks the bumped part.
proof fn lemma_step(v: AllocatorView, op: HeapOp)
    requires
        v.wf(),
        v.op_ok(op),
    ensures
        v.apply(op).wf(),
        v.apply(op).base == v.base,
        v.next <= v.apply(op).next,
{
    match op {
        HeapOp::Alloc(size, align) => {
            lemma_alloc_keeps_wf(v, size, align);
            lemma_alloc_counters(v, size, align);
        },
        HeapOp::Free(p, size, align) => {
            lemma_dealloc_keeps_wf(v, p, size, align);
        },
    }
}

/// Over any sequence of permitted calls the invariant holds throughout:
/// regions handed out or free never overlap and stay in the arena, the
/// counters agree with the regions, the arena base stays where it was
/// (a multiple of the granule), and the bumped part only grows, up to the
/// arena's size.
pub proof fn lemma_trace_invariants(v: AllocatorView, ops: Seq<HeapOp>)
    requires
        v.wf(),
        v.trace_ok(ops),
    ensures
        v.replay(ops).wf(),
        v.replay(ops).base == v.base,
        v.replay(ops).base % GRANULE == 0,
        v.next <= v.replay(ops).next <= HEAP_SIZE,
        v.replay(ops).reuses <= v.replay(ops).allocs,
        v.replay(ops).allocs - v.replay(ops).frees == live_addrs(v.replay(ops).regions).len(),
    decreases ops.len(),
{
    if ops.len() > 0 {
        lemma_step(v, ops[0]);
        lemma_trace_invariants(v.apply(ops[0]), ops.drop_first());
    }
}

/// The free list of each bin is a stack over any sequence of permitted
/// calls: frees of the bin push, requests of the bin pop the most recently
/// freed chunk still on it, and calls of other bins do not touch it.
pub proof fn lemma_free_lists_are_stacks(v: AllocatorView, ops: Seq<HeapOp>, b: int)
    requires
        v.wf(),
        v.trace_ok(ops),
        0 <= b < NUM_BINS,
    ensures
        v.replay(ops).bins[b] == bin_stack(v.bins[b], b, ops),
    decreases ops.len(),
{
    if ops.len() > 0 {
        let op = ops[0];
        let v1 = v.apply(op);
        lemma_step(v, op);
        if let HeapOp::Alloc(size, align) = op {
            if !v.serves_from_free_list(size, align) {
                let a: int = match request_bin(size, align) {
                    Some(_) => GRANULE as int,
                    None => if align > GRANULE {
                        align as int
                    } else {
                        GRANULE as int
                    },
                };
                lemma_round_up(v.base + v.next, a);
            }
        }
        lemma_free_lists_are_stacks(v1, ops.drop_first(), b);
    }
}

/// Calls of other bins leave a bin's stack as it is.
proof fn lemma_bin_stack_untouched(l: Seq<usize>, b: int, ops: Seq<HeapOp>)
    requires
        forall|k: int| 0 <= k < ops.len() ==> op_bin(#[trigger] ops[k]) != Some(b),
    ensures
        bin_stack(l, b, ops) == l,
    decreases ops.len(),
{
    if ops.len() > 0 {
        assert(op_bin(ops[0]) != Some(b));
        assert forall|k: int| 0 <= k < ops.drop_first().len() implies op_bin(
            #[trigger] ops.drop_first()[k],
        ) != Some(b) by {
            assert(ops.drop_first()[k] == ops[k + 1]);
        }
        lemma_bin_stack_untouched(l, b, ops.drop_first());
    }
}

/// A freed chunk is handed out again by the next request of its bin, even
/// after any calls of other bins in between.
pub proof fn lemma_lifo_reuse(
    v: AllocatorView,
    p: usize,
    size: usize,
    align: usize,
    mid: Seq<HeapOp>,
    size2: usize,
    align2: usize,
)
    requires
        v.wf(),
        request_bin(size, align) is Some,
        request_bin(size2, align2) == request_bin(size, align),
        forall|k: int| 0 <= k < mid.len() ==> op_bin(#[trigger] mid[k]) != request_bin(size, align),
        v.trace_ok(seq![HeapOp::Free(p, size, align)] + mid),
    ensures
        v.replay(seq![HeapOp::Free(p, size, align)] + mid).after_alloc(size2, align2).1 == Some(p),
{
    let b = request_bin(size, align)->0;
    let ops = seq![HeapOp::Free(p, size, align)] + mid;
    assert(ops[0] == HeapOp::Free(p, size, align));
    assert(ops.drop_first() =~= mid);
    lemma_size_class_bounds(size, align);
    lemma_free_lists_are_stacks(v, ops, b);
    lemma_bin_stack_untouched(v.bins[b].push(p), b, mid);
    assert(v.replay(ops).bins[b] == v.bins[b].push(p));
}

/// A bin is one of the `NUM_BINS` bins.
proof fn lemma_size_class_bounds(size: usize, align: usize)
    ensures
        request_bin(size, align) matches Some(b) ==> 0 <= b < NUM_BINS,
{
}

/// The region at `p` was dropped: it is no region of the allocator and
/// lies below the end of the bumped part.
pub open spec fn dropped(v: AllocatorView, p: usize) -> bool {
    !v.regions.contains_key(p) && p < v.base + v.next
}

/// A dropped region is never handed out by any later permitted call.
proof fn lemma_dropped_stays(u: AllocatorView, p: usize, ops: Seq<HeapOp>)
    requires
        u.wf(),
        dropped(u, p),
        u.trace_ok(ops),
    ensures
        forall|k: int|
            #![trigger ops[k]]
            0 <= k < ops.len() ==> (ops[k] matches HeapOp::Alloc(s2, a2) ==> u.replay(ops.take(k)).after_alloc(
                s2,
                a2,
            ).1 != Some(p)),
    decreases ops.len(),
{
    if ops.len() > 0 {
        let op = ops[0];
        let u1 = u.apply(op);
        lemma_step(u, op);
        match op {
            HeapOp::Alloc(size, align) => {
                let r = u.after_alloc(size, align).1;
                if r is Some {
                    lemma_alloc_result(u, size, align);
                    if u.serves_from_free_list(size, align) {
                        let b = request_bin(size, align)->0;
                        assert(u.bins[b][u.bins[b].len() - 1] == r->0);
                    }
                }
                assert(dropped(u1, p));
            },
            HeapOp::Free(q, size, align) => {
                assert(dropped(u1, p));
            },
        }
        lemma_dropped_stays(u1, p, ops.drop_first());
        assert forall|k: int|
            #![trigger ops[k]]
            0 <= k < ops.len() implies (ops[k] matches HeapOp::Alloc(s2, a2) ==> u.replay(
                ops.take(k),
            ).after_alloc(s2, a2).1 != Some(p)) by {
            if k == 0 {
                assert(ops.take(0) =~= Seq::<HeapOp>::empty());
                if let HeapOp::Alloc(s2, a2) = ops[0] {
                    let r = u.after_alloc(s2, a2).1;
                    if r is Some {
                        lemma_alloc_result(u, s2, a2);
                        if u.serves_from_free_list(s2, a2) {
                            let b = request_bin(s2, a2)->0;
                            assert(u.bins[b][u.bins[b].len() - 1] == r->0);
                        }
                    }
                }
            } else {
                let t = ops.take(k);
                assert(t[0] == op);
                assert(t.drop_first() =~= ops.drop_first().take(k - 1));
                assert(ops.drop_first()[k - 1] == ops[k]);
            }
        }
    }
}

/// A region without a bin, once freed, is never handed out again by any
/// later permitted call: it is not recycled.
pub proof fn lemma_freed_large_never_reused(
    v: AllocatorView,
    p: usize,
    size: usize,
    align: usize,
    ops: Seq<HeapOp>,
)
    requires
        v.wf(),
        request_bin(size, align) is None,
        v.trace_ok(seq![HeapOp::Free(p, size, align)] + ops),
    ensures
        forall|k: int|
            #![trigger ops[k]]
            0 <= k < ops.len() ==> (ops[k] matches HeapOp::Alloc(s2, a2) ==> v.after_dealloc(
                p,
                size,
                align,
            ).replay(ops.take(k)).after_alloc(s2, a2).1 != Some(p)),
{
    let all = seq![HeapOp::Free(p, size, align)] + ops;
    assert(all[0] == HeapOp::Free(p, size, align));
    assert(all.drop_first() =~= ops);
    lemma_step(v, all[0]);
    assert(v.region_ok(p));
    lemma_dropped_stays(v.after_dealloc(p, size, align), p, ops);
}

/// Requests of at most 256 bytes that need no more than 16-byte alignment
/// are binned by size: a request of `size` bytes (a zero size counting as
/// one) goes to bin `(size + 15) / 16 - 1`, the bin of 16-byte chunks for
/// 1 to 16 bytes, of 32-byte chunks for 17 to 32 bytes, and so on up to
/// 256-byte chunks.  Any larger request, or one that needs more than
/// 16-byte alignment, has no bin.
pub proof fn lemma_request_bin_by_size(size: usize, align: usize)
    ensures
        align <= 16 && size == 0 ==> request_bin(size, align) == Some(0int),
        align <= 16 && 1 <= size <= 256 ==> request_bin(size, align) == Some(
            (size + 15) / 16 - 1,
        ),
        align > 16 || size > 256 ==> request_bin(size, align) is None,
{
}

/// A chunk of at most 256 bytes with at most 16-byte alignment is
/// recycled: once freed it is on the free list of bin
/// `(size + 15) / 16 - 1`, one chunk more than before, and the next request
/// of the same size and alignment gets the same address back.
pub proof fn lemma_small_chunk_recycled(v: AllocatorView, size: usize, align: usize)
    requires
        v.wf(),
        1 <= size <= 256,
        align <= 16,
        v.after_alloc(size, align).1 is Some,
    ensures
        ({
            let (v1, r) = v.after_alloc(size, align);
            let p = r->0;
            let b = (size + 15) / 16 - 1;
            let v2 = v1.after_dealloc(p, size, align);
            &&& v1.is_live(p, size, align)
            &&& v2.bins[b].len() == v1.bins[b].len() + 1
            &&& v2.bins[b].last() == p
            &&& v2.after_alloc(size, align).1 == Some(p)
        }),
{
    lemma_request_bin_by_size(size, align);
    lemma_freed_chunk_is_reused(v, size, align, size, align);
}

/// `q` is a multiple of `a`.
pub open spec fn is_multiple(q: int, a: int) -> bool {
    q % a == 0
}

/// Where a request not served from a free list goes: at the first address
/// past the bumped part that is a multiple of 16 (for a binned request) or
/// of `max(align, 16)` (for any other), taking the bin's chunk size or the
/// request's own size; and it fails exactly when that region would run
/// past the end of the arena.
pub proof fn lemma_fresh_region_placement(v: AllocatorView, size: usize, align: usize)
    requires
        v.wf(),
        layout_ok(size, align),
        v.allocs < usize::MAX,
        !v.serves_from_free_list(size, align),
    ensures
        ({
            let (v1, r) = v.after_alloc(size, align);
            let s: int = if size == 0 { 1 } else { size as int };
            let binned = align <= 16 && s <= 256;
            let a: int = if binned || align <= 16 { 16 } else { align as int };
            let len: int = if binned { ((s + 15) / 16) * 16 } else { s };
            &&& (r matches Some(p) ==> {
                &&& (p as int) % a == 0
                &&& v.base + v.next <= p < v.base + v.next + a
                &&& v1.next == p - v.base + len
            })
            &&& (r is None ==> forall|q: int|
                #[trigger] is_multiple(q, a) && v.base + v.next <= q < v.base + v.next + a ==> q
                    - v.base + len > HEAP_SIZE)
        }),
{
    lemma_request_bin_by_size(size, align);
    let s: int = if size == 0 { 1 } else { size as int };
    let binned = align <= 16 && s <= 256;
    let a: int = if binned || align <= 16 { 16 } else { align as int };
    let x = v.base + v.next;
    lemma_round_up(x, a);
    let q0 = round_up(x, a);
    assert forall|q: int| #[trigger] is_multiple(q, a) && x <= q < x + a implies q == q0 by {
        vstd::arithmetic::div_mod::lemma_fundamental_div_mod(q, a);
        vstd::arithmetic::div_mod::lemma_fundamental_div_mod(q0, a);
        let m = q / a;
        let m0 = q0 / a;
        assert(q == a * m);
        assert(q0 == a * m0);
        if m < m0 {
            assert(a * m <= a * m0 - a) by (nonlinear_arith)
                requires
                    m <= m0 - 1,
                    a > 0,
            ;
        } else if m > m0 {
            assert(a * m0 + a <= a * m) by (nonlinear_arith)
                requires
                    m0 + 1 <= m,
                    a > 0,
            ;
        }
    }
    if binned {
        let b = (s + 15) / 16 - 1;
        assert(chunk_size(b) == ((s + 15) / 16) * 16);
    }
}

} // verus!
