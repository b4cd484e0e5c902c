//! Arena allocation of raw bytes.
//!
//! A [`ByteArena`] owns an append-only sequence of chunks and bumps a cursor
//! through the newest one. Allocations return [`Region`] handles; a handle
//! stays valid, keeps its contents, and overlaps no other handed-out region
//! for the whole life of the arena.

use vstd::prelude::*;
use vstd::arithmetic::power2::{
    pow2, lemma_pow2_strictly_increases, lemma_pow2_unfold, lemma2_to64,
};

verus! {

/// Minimum capacity, in bytes, of a chunk acquired by growth.
pub const MIN_CHUNK_CAPACITY: usize = 4096;

/// A handle to a range of bytes handed out by a [`ByteArena`].
///
/// The handle names the chunk the range lies in, the byte offset of the
/// range inside that chunk, and its length. It stays usable until the arena
/// itself is dropped: the arena never frees, reuses, or moves a chunk.
#[derive(Clone, Copy, PartialEq, Eq, Structural, Debug)]
pub struct Region {
    /// Index of the chunk that holds the range.
    pub chunk: usize,
    /// Byte offset of the range within that chunk.
    pub offset: usize,
    /// Length of the range in bytes.
    pub len: usize,
}

/// Two regions share no byte: they lie in different chunks, or one ends at
/// or before the other's start.
pub open spec fn regions_disjoint(a: Region, b: Region) -> bool {
    ||| a.chunk != b.chunk
    ||| a.offset + a.len <= b.offset
    ||| b.offset + b.len <= a.offset
}

/// Every region dereferenceable in `pre` is dereferenceable in `post` with
/// the same contents: nothing already handed out moves or changes.
pub open spec fn untouched(pre: ByteArena, post: ByteArena) -> bool {
    forall|q: Region|
        #[trigger] pre.valid_region(q) ==> post.valid_region(q) && post.region_bytes(q)
            == pre.region_bytes(q)
}

/// As [`untouched`], and the freshly returned region `fresh` lies apart
/// from everything that was dereferenceable in `pre`.
pub open spec fn preserved(pre: ByteArena, post: ByteArena, fresh: Region) -> bool {
    forall|q: Region|
        #[trigger] pre.valid_region(q) ==> post.valid_region(q) && post.region_bytes(q)
            == pre.region_bytes(q) && regions_disjoint(q, fresh)
}

/// Some machine-representable power of two can hold a request of `amount`
/// bytes, so growth by the power-of-two policy cannot overflow.
pub open spec fn growable(amount: nat) -> bool {
    exists|e: nat| amount <= pow2(e) && pow2(e) <= usize::MAX
}

/// A vector of `amount` zero bytes.
fn zeros(amount: usize) -> (v: Vec<u8>)
    ensures
        v@.len() == amount,
        forall|j: int| 0 <= j < amount ==> v@[j] == 0u8,
{
    let mut v: Vec<u8> = Vec::new();
    let mut i: usize = 0;
    while i < amount
        invariant
            i <= amount,
            v@.len() == i,
            forall|j: int| 0 <= j < i ==> v@[j] == 0u8,
        decreases amount - i,
    {
        v.push(0);
        i += 1;
    }
    v
}

/// Rounding a cursor at `cur` up by `(align - cur % align) % align` lands it
/// on a multiple of `align`.
proof fn lemma_align_round_up(cur: int, align: int)
    requires
        0 <= cur,
        1 <= align,
    ensures
        0 <= (align - cur % align) % align < align,
        (cur + (align - cur % align) % align) % align == 0,
{
    let m = cur % align;
    vstd::arithmetic::div_mod::lemma_fundamental_div_mod(cur, align);
    if m == 0 {
        vstd::arithmetic::div_mod::lemma_mod_self_0(align);
    } else {
        vstd::arithmetic::div_mod::lemma_small_mod((align - m) as nat, align as nat);
        let d = cur / align;
        assert(align * (d + 1) == align * d + align) by (nonlinear_arith);
        assert(cur + (align - m) == align * (d + 1));
        vstd::arithmetic::div_mod::lemma_mod_multiples_basic(d + 1, align);
        assert((align * (d + 1)) % align == 0);
    }
}

proof fn lemma_pow2_le(e1: nat, e2: nat)
    requires
        e1 <= e2,
    ensures
        pow2(e1) <= pow2(e2),
{
    if e1 < e2 {
        lemma_pow2_strictly_increases(e1, e2);
    }
}

/// Any request of at most `0x8000_0000` bytes can be held by a
/// machine-representable power of two, on 32-bit and 64-bit machines alike:
/// the everyday way for callers to discharge [`growable`].
pub proof fn lemma_growable_small(amount: nat)
    requires
        amount <= 0x8000_0000,
    ensures
        growable(amount),
{
    lemma2_to64();
    assert(amount <= pow2(31) && pow2(31) <= usize::MAX);
}

/// The growth policy: the capacity of a chunk acquired to satisfy a request
/// of `amount` bytes is the least power of two at or above `amount`, and
/// never below [`MIN_CHUNK_CAPACITY`]. Returns `None` exactly when no
/// representable power of two can hold the request; an allocation that needs
/// growth is fatal on such an amount and must not be attempted.
pub fn grow_capacity(amount: usize) -> (r: Option<usize>)
    ensures
        r is Some <==> growable(amount as nat),
        r matches Some(c) ==> {
            &&& c >= amount
            &&& c >= MIN_CHUNK_CAPACITY
            &&& (exists|e: nat| c == pow2(e))
            &&& (amount <= MIN_CHUNK_CAPACITY ==> c == MIN_CHUNK_CAPACITY)
            &&& (amount > MIN_CHUNK_CAPACITY ==> c < 2 * amount)
        },
{
    let mut cap: usize = MIN_CHUNK_CAPACITY;
    let ghost mut e: nat = 12;
    proof {
        lemma2_to64();
    }
    while cap < amount
        invariant
            cap == pow2(e),
            cap >= MIN_CHUNK_CAPACITY,
            cap == MIN_CHUNK_CAPACITY || (cap < 2 * amount && amount > MIN_CHUNK_CAPACITY),
        decreases (if cap < amount { amount - cap } else { 0int }),
    {
        match cap.checked_mul(2) {
            None => {
                proof {
                    assert(!growable(amount as nat)) by {
                        if growable(amount as nat) {
                            let e2 = choose|e2: nat|
                                amount <= pow2(e2) && pow2(e2) <= usize::MAX;
                            if e2 <= e {
                                lemma_pow2_le(e2, e);
                            }
                            lemma_pow2_le(e + 1, e2);
                            lemma_pow2_unfold(e + 1);
                        }
                    }
                }
                return None;
            },
            Some(doubled) => {
                proof {
                    lemma_pow2_unfold(e + 1);
                    e = e + 1;
                }
                cap = doubled;
            },
        }
    }
    proof {
        assert(growable(amount as nat)) by {
            assert(amount <= pow2(e) && pow2(e) <= usize::MAX);
        }
    }
    Some(cap)
}

/// One contiguous block of backing storage. `data` holds the bytes handed
/// out so far (the bump cursor is its length); `capacity` is the fixed size
/// of the block. A chunk is never shrunk, reused, or freed before the arena
/// itself goes away.
struct ByteArenaChunk {
    data: Vec<u8>,
    capacity: usize,
}

impl ByteArenaChunk {
    spec fn wf(self) -> bool {
        self.data@.len() <= self.capacity
    }

    fn with_capacity(capacity: usize) -> (c: Self)
        ensures
            c.wf(),
            c.data@ == Seq::<u8>::empty(),
            c.capacity == capacity,
    {
        ByteArenaChunk { data: Vec::with_capacity(capacity), capacity }
    }
}

/// Arena allocator for bytes.
///
/// The arena owns an ordered, append-only sequence of chunks and bumps a
/// cursor through the newest one. When the newest chunk cannot hold a
/// request, a fresh chunk sized by [`grow_capacity`] is appended and becomes
/// the bump target; older chunks are never touched again, so every region
/// handed out earlier keeps its place and its contents.
pub struct ByteArena {
    chunks: Vec<ByteArenaChunk>,
    allocated: Ghost<Seq<Region>>,
}

impl ByteArena {
    /// Number of chunks acquired so far.
    pub closed spec fn chunk_count(self) -> nat {
        self.chunks@.len()
    }

    /// The bytes handed out so far from chunk `i`, in order.
    pub closed spec fn chunk_data(self, i: int) -> Seq<u8> {
        self.chunks@[i].data@
    }

    /// The fixed capacity of chunk `i`.
    pub closed spec fn chunk_capacity(self, i: int) -> nat {
        self.chunks@[i].capacity as nat
    }

    /// Every region the arena has handed out, in allocation order.
    pub closed spec fn allocations(self) -> Seq<Region> {
        self.allocated@
    }

    /// `r` lies within the bytes the arena has handed out: dereferencing it
    /// is meaningful.
    pub open spec fn valid_region(self, r: Region) -> bool {
        &&& r.chunk < self.chunk_count()
        &&& r.offset + r.len <= self.chunk_data(r.chunk as int).len()
    }

    /// The contents of region `r`.
    pub open spec fn region_bytes(self, r: Region) -> Seq<u8> {
        self.chunk_data(r.chunk as int).subrange(r.offset as int, r.offset + r.len)
    }

    /// Bytes still free in the active (newest) chunk.
    pub closed spec fn spec_remaining(self) -> nat {
        if self.chunk_count() == 0 {
            0
        } else {
            (self.chunk_capacity(self.chunk_count() - 1) - self.chunk_data(
                self.chunk_count() - 1,
            ).len()) as nat
        }
    }

    /// The arena's invariant: cursors lie within their chunks, every region
    /// handed out is dereferenceable, and no two of them overlap.
    pub closed spec fn wf(self) -> bool {
        &&& forall|i: int| 0 <= i < self.chunks@.len() ==> (#[trigger] self.chunks@[i]).wf()
        &&& forall|k: int|
            0 <= k < self.allocated@.len() ==> self.valid_region(#[trigger] self.allocated@[k])
        &&& forall|k1: int, k2: int|
            0 <= k1 < k2 < self.allocated@.len() ==> #[trigger] regions_disjoint(
                self.allocated@[k1],
                self.allocated@[k2],
            )
    }

    /// Create an empty arena; the first allocation acquires the first chunk.
    pub fn new() -> (a: Self)
        ensures
            a.wf(),
            a.chunk_count() == 0,
            a.allocations() == Seq::<Region>::empty(),
            a.spec_remaining() == 0,
    {
        ByteArena { chunks: Vec::new(), allocated: Ghost(Seq::empty()) }
    }

    /// Create an arena with one chunk of exactly `capacity` free bytes.
    pub fn with_capacity(capacity: usize) -> (a: Self)
        ensures
            a.wf(),
            a.chunk_count() == 1,
            a.chunk_data(0) == Seq::<u8>::empty(),
            a.chunk_capacity(0) == capacity,
            a.allocations() == Seq::<Region>::empty(),
            a.spec_remaining() == capacity,
    {
        let chunk = ByteArenaChunk::with_capacity(capacity);
        let mut chunks = Vec::new();
        chunks.push(chunk);
        ByteArena { chunks, allocated: Ghost(Seq::empty()) }
    }

    /// Bytes still free in the active chunk.
    pub fn remaining(&self) -> (n: usize)
        requires
            self.wf(),
        ensures
            n == self.spec_remaining(),
    {
        if self.chunks.len() == 0 {
            0
        } else {
            let i = self.chunks.len() - 1;
            self.chunks[i].capacity - self.chunks[i].data.len()
        }
    }

    /// Number of chunks acquired so far.
    pub fn num_chunks(&self) -> (n: usize)
        ensures
            n == self.chunk_count(),
    {
        self.chunks.len()
    }

    /// Acquire a fresh chunk sized by [`grow_capacity`] and make it the bump
    /// target. The previous chunks keep their contents; their unused tails
    /// are simply never used again.
    fn reserve(&mut self, amount: usize)
        requires
            old(self).wf(),
            growable(amount as nat),
        ensures
            final(self).wf(),
            final(self).chunk_count() == old(self).chunk_count() + 1,
            final(self).chunk_data(old(self).chunk_count() as int) == Seq::<u8>::empty(),
            final(self).spec_remaining() >= amount,
            final(self).spec_remaining() >= MIN_CHUNK_CAPACITY,
            final(self).allocations() == old(self).allocations(),
            forall|i: int|
                0 <= i < old(self).chunk_count() ==> final(self).chunk_data(i) == old(self).chunk_data(i) && final(self).chunk_capacity(i) == old(self).chunk_capacity(i),
            untouched(*old(self), *final(self)),
    {
        let capacity_opt = grow_capacity(amount);
        let capacity = capacity_opt.unwrap();
        let chunk = ByteArenaChunk::with_capacity(capacity);
        self.chunks.push(chunk);
        proof {
            assert forall|q: Region| #[trigger] old(self).valid_region(q) implies self.valid_region(
                q,
            ) && self.region_bytes(q) == old(self).region_bytes(q) by {
                assert(self.chunk_data(q.chunk as int) == old(self).chunk_data(q.chunk as int));
            }
        }
    }

    /// Append `source` to the active chunk and hand back its region. This is
    /// the bump step shared by every allocating operation; it does not grow
    /// and does not record the region in the allocation history.
    fn push_bytes(&mut self, source: &[u8]) -> (r: Region)
        requires
            old(self).wf(),
            old(self).chunk_count() > 0,
            old(self).spec_remaining() >= source@.len(),
        ensures
            final(self).wf(),
            final(self).valid_region(r),
            r.chunk + 1 == final(self).chunk_count(),
            r.offset == old(self).chunk_data(r.chunk as int).len(),
            r.len == source@.len(),
            final(self).region_bytes(r) == source@,
            final(self).chunk_count() == old(self).chunk_count(),
            final(self).allocations() == old(self).allocations(),
            final(self).spec_remaining() == old(self).spec_remaining() - source@.len(),
            forall|i: int|
                0 <= i < old(self).chunk_count() ==> final(self).chunk_capacity(i) == old(self).chunk_capacity(i),
            preserved(*old(self), *final(self), r),
    {
        let idx = self.chunks.len() - 1;
        let mut chunk = self.chunks.pop().unwrap();
        let ghost old_data = chunk.data@;
        let ghost cap = chunk.capacity;
        let offset = chunk.data.len();
        let amount = source.len();
        let mut i: usize = 0;
        while i < amount
            invariant
                i <= amount,
                amount == source@.len(),
                chunk.data@ == old_data + source@.subrange(0, i as int),
                chunk.capacity == cap,
                old_data.len() + amount <= cap,
            decreases amount - i,
        {
            chunk.data.push(source[i]);
            proof {
                assert(source@.subrange(0, i + 1) =~= source@.subrange(0, i as int).push(
                    source@[i as int],
                ));
            }
            i += 1;
        }
        proof {
            assert(source@.subrange(0, amount as int) =~= source@);
        }
        self.chunks.push(chunk);
        let r = Region { chunk: idx, offset, len: amount };
        proof {
            assert(self.chunks@ =~= old(self).chunks@.update(idx as int, chunk));
            assert(self.region_bytes(r) =~= source@);
            assert forall|q: Region| #[trigger] old(self).valid_region(q) implies self.valid_region(
                q,
            ) && self.region_bytes(q) == old(self).region_bytes(q) && regions_disjoint(q, r) by {
                if q.chunk == idx {
                    assert(self.region_bytes(q) =~= old(self).region_bytes(q));
                } else {
                    assert(self.chunk_data(q.chunk as int) == old(self).chunk_data(q.chunk as int));
                }
            }
            assert forall|k: int| 0 <= k < self.allocated@.len() implies self.valid_region(
                #[trigger] self.allocated@[k],
            ) by {
                assert(old(self).valid_region(old(self).allocated@[k]));
            }
        }
        r
    }

    /// Record `r` in the allocation history. `r` must already be known to
    /// lie apart from everything handed out before.
    fn record(&mut self, r: Region)
        requires
            old(self).wf(),
            old(self).valid_region(r),
            forall|k: int|
                0 <= k < old(self).allocations().len() ==> regions_disjoint(
                    #[trigger] old(self).allocations()[k],
                    r,
                ),
        ensures
            final(self).wf(),
            final(self).allocations() == old(self).allocations().push(r),
            final(self).chunk_count() == old(self).chunk_count(),
            final(self).spec_remaining() == old(self).spec_remaining(),
            final(self).valid_region(r),
            untouched(*old(self), *final(self)),
    {
        let ghost history = self.allocated@.push(r);
        self.allocated = Ghost(history);
        proof {
            assert forall|k: int| 0 <= k < self.allocated@.len() implies self.valid_region(
                #[trigger] self.allocated@[k],
            ) by {
                if k < old(self).allocated@.len() {
                    assert(old(self).valid_region(old(self).allocated@[k]));
                }
            }
            assert forall|k1: int, k2: int|
                0 <= k1 < k2 < self.allocated@.len() implies #[trigger] regions_disjoint(
                self.allocated@[k1],
                self.allocated@[k2],
            ) by {
                if k2 < old(self).allocated@.len() {
                    assert(regions_disjoint(
                        old(self).allocated@[k1],
                        old(self).allocated@[k2],
                    ));
                } else {
                    assert(regions_disjoint(old(self).allocations()[k1], r));
                }
            }
            assert forall|q: Region| #[trigger] old(self).valid_region(q) implies self.valid_region(
                q,
            ) && self.region_bytes(q) == old(self).region_bytes(q) by {}
        }
    }

    /// Allocate `source.len()` bytes and fill them with an exact copy of
    /// `source`, growing first if the active chunk cannot hold them. The
    /// copy lives at a place of its own: it overlaps no region handed out
    /// before, and every such region keeps its contents.
    pub fn alloc_copied(&mut self, source: &[u8]) -> (r: Region)
        requires
            old(self).wf(),
            old(self).spec_remaining() >= source@.len() || growable(source@.len() as nat),
        ensures
            final(self).wf(),
            final(self).valid_region(r),
            r.len == source@.len(),
            final(self).region_bytes(r) == source@,
            final(self).allocations() == old(self).allocations().push(r),
            final(self).chunk_count() >= old(self).chunk_count(),
            old(self).chunk_count() > 0 && old(self).spec_remaining() >= source@.len() ==> final(self).chunk_count() == old(self).chunk_count(),
            preserved(*old(self), *final(self), r),
    {
        let amount = source.len();
        if self.chunks.len() == 0 || self.remaining() < amount {
            proof {
                if old(self).spec_remaining() >= amount {
                    // Only an empty arena reaches here with room to spare,
                    // and then the request is zero-sized.
                    lemma_growable_small(amount as nat);
                }
            }
            self.reserve(amount);
        }
        let ghost mid = *self;
        let r = self.push_bytes(source);
        let ghost mid2 = *self;
        self.record(r);
        proof {
            assert forall|q: Region| #[trigger] old(self).valid_region(q) implies self.valid_region(
                q,
            ) && self.region_bytes(q) == old(self).region_bytes(q) && regions_disjoint(q, r) by {
                assert(mid.valid_region(q));
                assert(mid2.valid_region(q));
            }
        }
        r
    }

    /// Allocate `amount` bytes filled with zero.
    pub fn alloc_zeroed(&mut self, amount: usize) -> (r: Region)
        requires
            old(self).wf(),
            old(self).spec_remaining() >= amount || growable(amount as nat),
        ensures
            final(self).wf(),
            final(self).valid_region(r),
            r.len == amount,
            forall|j: int| 0 <= j < amount ==> final(self).region_bytes(r)[j] == 0u8,
            final(self).allocations() == old(self).allocations().push(r),
            final(self).chunk_count() >= old(self).chunk_count(),
            old(self).chunk_count() > 0 && old(self).spec_remaining() >= amount ==> final(self).chunk_count() == old(self).chunk_count(),
            preserved(*old(self), *final(self), r),
    {
        let buf = zeros(amount);
        self.alloc_copied(buf.as_slice())
    }

    /// Allocate `amount` bytes whose initial contents the contract leaves
    /// unspecified: callers get a place, not a value.
    pub fn alloc_uninitialized(&mut self, amount: usize) -> (r: Region)
        requires
            old(self).wf(),
            old(self).spec_remaining() >= amount || growable(amount as nat),
        ensures
            final(self).wf(),
            final(self).valid_region(r),
            r.len == amount,
            final(self).allocations() == old(self).allocations().push(r),
            final(self).chunk_count() >= old(self).chunk_count(),
            old(self).chunk_count() > 0 && old(self).spec_remaining() >= amount ==> final(self).chunk_count() == old(self).chunk_count(),
            preserved(*old(self), *final(self), r),
    {
        self.alloc_zeroed(amount)
    }

    /// Allocate `size` bytes starting at an offset that is a multiple of
    /// `align`, padding the cursor forward or growing as needed. The padding
    /// bytes are wasted, never handed out.
    pub fn alloc_aligned(&mut self, size: usize, align: usize) -> (r: Region)
        requires
            old(self).wf(),
            1 <= align,
            size + align <= usize::MAX,
            old(self).spec_remaining() >= size + align || growable(size as nat),
        ensures
            final(self).wf(),
            final(self).valid_region(r),
            r.len == size,
            r.offset % align == 0,
            final(self).allocations() == old(self).allocations().push(r),
            preserved(*old(self), *final(self), r),
    {
        let mut grow = self.chunks.len() == 0;
        if !grow {
            let i = self.chunks.len() - 1;
            let cur = self.chunks[i].data.len();
            let pad = (align - (cur % align)) % align;
            proof {
                lemma_align_round_up(cur as int, align as int);
            }
            if self.remaining() < pad + size {
                grow = true;
            }
        }
        if grow {
            self.reserve(size);
        }
        let ghost s1 = *self;
        let i = self.chunks.len() - 1;
        let cur = self.chunks[i].data.len();
        let pad = (align - (cur % align)) % align;
        proof {
            lemma_align_round_up(cur as int, align as int);
            if cur == 0 {
                vstd::arithmetic::div_mod::lemma_small_mod(0nat, align as nat);
                vstd::arithmetic::div_mod::lemma_mod_self_0(align as int);
                assert(pad == 0);
            }
            assert(self.spec_remaining() >= pad + size);
        }
        if pad > 0 {
            let filler = zeros(pad);
            let _filled = self.push_bytes(filler.as_slice());
        }
        let ghost s2 = *self;
        let buf = zeros(size);
        let r = self.push_bytes(buf.as_slice());
        let ghost s3 = *self;
        proof {
            assert forall|k: int| 0 <= k < self.allocations().len() implies regions_disjoint(
                #[trigger] self.allocations()[k],
                r,
            ) by {
                assert(old(self).valid_region(old(self).allocations()[k]));
                assert(s1.valid_region(old(self).allocations()[k]));
                assert(s2.valid_region(old(self).allocations()[k]));
            }
        }
        self.record(r);
        proof {
            assert forall|q: Region| #[trigger] old(self).valid_region(q) implies self.valid_region(
                q,
            ) && self.region_bytes(q) == old(self).region_bytes(q) && regions_disjoint(q, r) by {
                assert(s1.valid_region(q));
                assert(s2.valid_region(q));
                assert(s3.valid_region(q));
            }
        }
        r
    }

    /// Read the byte at index `i` of region `r`.
    pub fn read_byte(&self, r: Region, i: usize) -> (b: u8)
        requires
            self.valid_region(r),
            i < r.len,
        ensures
            b == self.region_bytes(r)[i as int],
    {
        let chunk = &self.chunks[r.chunk];
        // The exec length is a machine word; that bounds `r.offset + i`.
        let _filled = chunk.data.len();
        chunk.data[r.offset + i]
    }

    /// Copy the contents of region `r` out into a fresh vector.
    pub fn read_region(&self, r: Region) -> (v: Vec<u8>)
        requires
            self.valid_region(r),
        ensures
            v@ == self.region_bytes(r),
    {
        let mut v: Vec<u8> = Vec::new();
        let mut i: usize = 0;
        while i < r.len
            invariant
                self.valid_region(r),
                i <= r.len,
                v@.len() == i,
                forall|j: int| 0 <= j < i ==> v@[j] == self.region_bytes(r)[j],
            decreases r.len - i,
        {
            let b = self.read_byte(r, i);
            v.push(b);
            i += 1;
        }
        proof {
            assert(v@ =~= self.region_bytes(r));
        }
        v
    }
}

/// Every region in the allocation history of a well-formed arena can be
/// dereferenced: nothing the arena has handed out ever dangles while the
/// arena lives.
pub proof fn lemma_allocations_valid(a: ByteArena, k: int)
    requires
        a.wf(),
        0 <= k < a.allocations().len(),
    ensures
        a.valid_region(a.allocations()[k]),
{
}

/// No two regions a well-formed arena has handed out overlap, whatever
/// sequence of allocation requests produced them.
pub proof fn lemma_allocations_disjoint(a: ByteArena, k1: int, k2: int)
    requires
        a.wf(),
        0 <= k1 < a.allocations().len(),
        0 <= k2 < a.allocations().len(),
        k1 != k2,
    ensures
        regions_disjoint(a.allocations()[k1], a.allocations()[k2]),
{
    if k1 < k2 {
        assert(regions_disjoint(a.allocations()[k1], a.allocations()[k2]));
    } else {
        assert(regions_disjoint(a.allocations()[k2], a.allocations()[k1]));
    }
}


} // verus!
