//! Dynamically typed arena allocation with verified bookkeeping.
//!
//! The crate offers two allocators. [`bytes::ByteArena`] bump-allocates raw
//! byte ranges out of growable chunks and hands back [`bytes::Region`]
//! handles; its contracts prove that no two handed-out ranges ever overlap
//! and that every earlier range keeps its place and contents when the arena
//! grows. [`DynamicArena`] layers type-erased value storage on top of that
//! byte supply: a stored value of any type is its byte image in the arena,
//! and a value whose type needs cleanup gets a deferred-destructor record
//! that teardown surrenders in exact insertion order, each record exactly
//! once.

pub mod bytes;

use core::marker::PhantomData;
use vstd::prelude::*;

use crate::bytes::{growable, preserved, ByteArena, Region};

verus! {

/// Marker trait for the thread-transfer capability of a [`DynamicArena`]:
/// whether the arena as a whole may be handed to another thread.
pub trait SendAbility: Sized {
    /// Create an empty arena carrying this capability tag.
    fn create_arena() -> (a: DynamicArena<Self>)
        ensures
            a.wf(),
            a.records() == Seq::<DtorRecord>::empty(),
            a.bytes().allocations() == Seq::<Region>::empty(),
    ;
}

/// Capability tag for arenas whose every stored value is itself safe to move
/// across threads; in exchange the arena as a whole may be handed to another
/// thread between periods of use.
pub struct Sendable {}

/// Capability tag for arenas confined to one logical thread of use: stored
/// values need not be thread-transferable, and the arena itself must never
/// cross threads.
pub struct NonSend {}

/// A deferred-destructor record: the pairing of a type-erased cleanup
/// routine with the stored value it must be applied to.
///
/// `dtor` identifies the cleanup routine of the value's type; the arena
/// never interprets it, it only keeps it with the value. `value` is the
/// stored value's place in the arena, valid until the record is surrendered
/// at teardown.
#[derive(Clone, Copy, PartialEq, Eq, Structural, Debug)]
pub struct DtorRecord {
    /// Identifier of the type-erased cleanup routine.
    pub dtor: usize,
    /// The stored value the routine must be applied to.
    pub value: Region,
}

/// An arena allocator where values of any type, of mixed types, can be
/// stored.
///
/// A stored value is its byte image: allocation copies the bytes into the
/// underlying [`ByteArena`] and returns the [`Region`] where they now live,
/// valid for the arena's whole life. A value whose type needs cleanup is
/// registered as a [`DtorRecord`]; at [`DynamicArena::teardown`] every
/// record is surrendered exactly once, in insertion order, before the byte
/// storage is released.
///
/// Values allocated through the copy-only path ([`DynamicArena::alloc_copy`])
/// register no cleanup, which is what makes it sound for them to embed
/// references to earlier allocations in the same arena: no destructor can
/// ever observe a torn-down neighbour.
#[verifier::reject_recursive_types(S)]
pub struct DynamicArena<S> {
    handle: ByteArena,
    items: Vec<DtorRecord>,
    send: PhantomData<S>,
}

/// An arena allocator which requires that everything stored is safe to send
/// across threads.
pub type DynamicSendArena = DynamicArena<Sendable>;

impl<S> DynamicArena<S> {
    /// The underlying byte supply, as contracts see it.
    pub closed spec fn bytes(self) -> ByteArena {
        self.handle
    }

    /// The deferred-destructor records, in allocation order.
    pub closed spec fn records(self) -> Seq<DtorRecord> {
        self.items@
    }

    /// `r` lies within storage this arena has handed out.
    pub open spec fn valid_region(self, r: Region) -> bool {
        self.bytes().valid_region(r)
    }

    /// The byte image of the stored value at `r`.
    pub open spec fn region_bytes(self, r: Region) -> Seq<u8> {
        self.bytes().region_bytes(r)
    }

    /// The arena's invariant: the byte supply is well formed and every
    /// recorded value is still dereferenceable, so its cleanup routine can
    /// be applied at teardown.
    pub open spec fn wf(self) -> bool {
        &&& self.bytes().wf()
        &&& forall|k: int|
            0 <= k < self.records().len() ==> self.valid_region(
                (#[trigger] self.records()[k]).value,
            )
    }

    /// Create an arena with pre-allocated capacity for the given number of
    /// deferred-destructor records and bytes. The record capacity excludes
    /// copy-only values, which never need a record.
    pub fn with_capacity(item_capacity: usize, byte_capacity: usize) -> (a: Self)
        ensures
            a.wf(),
            a.records() == Seq::<DtorRecord>::empty(),
            a.bytes().allocations() == Seq::<Region>::empty(),
            a.bytes().chunk_count() == 1,
            a.bytes().spec_remaining() == byte_capacity,
    {
        DynamicArena {
            handle: ByteArena::with_capacity(byte_capacity),
            items: Vec::with_capacity(item_capacity),
            send: PhantomData,
        }
    }

    /// Store `value`'s byte image without registering any cleanup, leaking
    /// whatever cleanup its type would have wanted. Sound only when the
    /// caller guarantees the type needs none, or handles it elsewhere.
    pub fn alloc_unchecked(&mut self, value: &[u8]) -> (r: Region)
        requires
            old(self).wf(),
            old(self).bytes().spec_remaining() >= value@.len() || growable(value@.len() as nat),
        ensures
            final(self).wf(),
            final(self).valid_region(r),
            r.len == value@.len(),
            final(self).region_bytes(r) == value@,
            final(self).records() == old(self).records(),
            final(self).bytes().allocations() == old(self).bytes().allocations().push(r),
            preserved(old(self).bytes(), final(self).bytes(), r),
    {
        let r = self.handle.alloc_copied(value);
        proof {
            assert forall|k: int| 0 <= k < self.records().len() implies self.valid_region(
                (#[trigger] self.records()[k]).value,
            ) by {
                assert(old(self).valid_region(old(self).records()[k].value));
            }
        }
        r
    }

    /// Store a value of a type with no cleanup behaviour at all: the
    /// copy-only path. Because nothing will ever run over the stored bytes
    /// at teardown, such a value may freely embed references to earlier
    /// allocations in this same arena — self-referential chains included.
    pub fn alloc_copy(&mut self, value: &[u8]) -> (r: Region)
        requires
            old(self).wf(),
            old(self).bytes().spec_remaining() >= value@.len() || growable(value@.len() as nat),
        ensures
            final(self).wf(),
            final(self).valid_region(r),
            r.len == value@.len(),
            final(self).region_bytes(r) == value@,
            final(self).records() == old(self).records(),
            final(self).bytes().allocations() == old(self).bytes().allocations().push(r),
            preserved(old(self).bytes(), final(self).bytes(), r),
    {
        self.alloc_unchecked(value)
    }

    /// Allocate uninitialized storage for a caller-described layout: `size`
    /// bytes at an offset that is a multiple of `align`. The basis the typed
    /// operations are built on.
    pub fn alloc_layout(&mut self, size: usize, align: usize) -> (r: Region)
        requires
            old(self).wf(),
            1 <= align,
            size + align <= usize::MAX,
            old(self).bytes().spec_remaining() >= size + align || growable(size as nat),
        ensures
            final(self).wf(),
            final(self).valid_region(r),
            r.len == size,
            r.offset % align == 0,
            final(self).records() == old(self).records(),
            final(self).bytes().allocations() == old(self).bytes().allocations().push(r),
            preserved(old(self).bytes(), final(self).bytes(), r),
    {
        let r = self.handle.alloc_aligned(size, align);
        proof {
            assert forall|k: int| 0 <= k < self.records().len() implies self.valid_region(
                (#[trigger] self.records()[k]).value,
            ) by {
                assert(old(self).valid_region(old(self).records()[k].value));
            }
        }
        r
    }

    /// Register cleanup for an already-stored value: append a
    /// deferred-destructor record for it, but only if its type's cleanup
    /// behaviour is non-trivial — `cleanup` carries the routine's identifier
    /// then, and `None` makes this a no-op.
    pub fn dynamic_drop(&mut self, value: Region, cleanup: Option<usize>)
        requires
            old(self).wf(),
            old(self).valid_region(value),
        ensures
            final(self).wf(),
            final(self).bytes() == old(self).bytes(),
            final(self).records() == (match cleanup {
                Some(d) => old(self).records().push(DtorRecord { dtor: d, value }),
                None => old(self).records(),
            }),
    {
        match cleanup {
            Some(d) => {
                self.items.push(DtorRecord { dtor: d, value });
                proof {
                    assert forall|k: int| 0 <= k < self.records().len() implies self.valid_region(
                        (#[trigger] self.records()[k]).value,
                    ) by {
                        if k < old(self).records().len() {
                            assert(old(self).valid_region(old(self).records()[k].value));
                        }
                    }
                }
            },
            None => {},
        }
    }

    /// Store a value and, when its type needs cleanup, register the record
    /// for it in one step: the composition every typed allocation performs.
    fn store_value(&mut self, value: &[u8], cleanup: Option<usize>) -> (r: Region)
        requires
            old(self).wf(),
            old(self).bytes().spec_remaining() >= value@.len() || growable(value@.len() as nat),
        ensures
            final(self).wf(),
            final(self).valid_region(r),
            r.len == value@.len(),
            final(self).region_bytes(r) == value@,
            final(self).bytes().allocations() == old(self).bytes().allocations().push(r),
            preserved(old(self).bytes(), final(self).bytes(), r),
            final(self).records() == (match cleanup {
                Some(d) => old(self).records().push(DtorRecord { dtor: d, value: r }),
                None => old(self).records(),
            }),
    {
        let target = self.alloc_unchecked(value);
        self.dynamic_drop(target, cleanup);
        target
    }

    /// Borrow the underlying byte supply, for reading stored values back or
    /// allocating raw bytes alongside the typed operations.
    pub fn as_byte_arena(&self) -> (b: &ByteArena)
        ensures
            *b == self.bytes(),
    {
        &self.handle
    }

    /// Read the byte image of the stored value at `r` back out.
    pub fn read(&self, r: Region) -> (v: Vec<u8>)
        requires
            self.valid_region(r),
        ensures
            v@ == self.region_bytes(r),
    {
        self.handle.read_region(r)
    }

    /// Tear the arena down. Every deferred-destructor record is surrendered,
    /// exactly once and in insertion order — oldest allocation first — for
    /// its cleanup routine to be applied; the byte storage is released when
    /// the returned records have been consumed, as the values live in it.
    pub fn teardown(self) -> (records: Vec<DtorRecord>)
        ensures
            records@ == self.records(),
    {
        let DynamicArena { handle: _, items, send: _ } = self;
        items
    }
}

impl DynamicArena<NonSend> {
    /// Create a new dynamic arena confined to one thread of use. Usually
    /// this is what you want.
    pub fn new() -> (a: Self)
        ensures
            a.wf(),
            a.records() == Seq::<DtorRecord>::empty(),
            a.bytes().allocations() == Seq::<Region>::empty(),
            a.bytes().chunk_count() == 0,
    {
        Self::new_bounded()
    }

    /// Create a new empty arena carrying the [`NonSend`] tag: stored values
    /// need not be thread-transferable.
    pub fn new_bounded() -> (a: Self)
        ensures
            a.wf(),
            a.records() == Seq::<DtorRecord>::empty(),
            a.bytes().allocations() == Seq::<Region>::empty(),
            a.bytes().chunk_count() == 0,
    {
        DynamicArena { handle: ByteArena::new(), items: Vec::new(), send: PhantomData }
    }

    /// Store a value, registering its cleanup when `cleanup` names one.
    /// References embedded in the value must stay valid for the arena's
    /// whole life; under this tag the value need not be thread-safe.
    pub fn alloc_value(&mut self, value: &[u8], cleanup: Option<usize>) -> (r: Region)
        requires
            old(self).wf(),
            old(self).bytes().spec_remaining() >= value@.len() || growable(value@.len() as nat),
        ensures
            final(self).wf(),
            final(self).valid_region(r),
            r.len == value@.len(),
            final(self).region_bytes(r) == value@,
            final(self).bytes().allocations() == old(self).bytes().allocations().push(r),
            preserved(old(self).bytes(), final(self).bytes(), r),
            final(self).records() == (match cleanup {
                Some(d) => old(self).records().push(DtorRecord { dtor: d, value: r }),
                None => old(self).records(),
            }),
    {
        self.store_value(value, cleanup)
    }
}

impl DynamicArena<Sendable> {
    /// Create a new empty arena carrying the [`Sendable`] tag: every stored
    /// value must itself be safe to move across threads, and in exchange the
    /// arena as a whole may be.
    pub fn new_send() -> (a: Self)
        ensures
            a.wf(),
            a.records() == Seq::<DtorRecord>::empty(),
            a.bytes().allocations() == Seq::<Region>::empty(),
            a.bytes().chunk_count() == 0,
    {
        DynamicArena { handle: ByteArena::new(), items: Vec::new(), send: PhantomData }
    }

    /// Store a value, registering its cleanup when `cleanup` names one.
    /// Under this tag the value's type must additionally be safe to move
    /// across threads, since the whole arena may be.
    pub fn alloc_value(&mut self, value: &[u8], cleanup: Option<usize>) -> (r: Region)
        requires
            old(self).wf(),
            old(self).bytes().spec_remaining() >= value@.len() || growable(value@.len() as nat),
        ensures
            final(self).wf(),
            final(self).valid_region(r),
            r.len == value@.len(),
            final(self).region_bytes(r) == value@,
            final(self).bytes().allocations() == old(self).bytes().allocations().push(r),
            preserved(old(self).bytes(), final(self).bytes(), r),
            final(self).records() == (match cleanup {
                Some(d) => old(self).records().push(DtorRecord { dtor: d, value: r }),
                None => old(self).records(),
            }),
    {
        self.store_value(value, cleanup)
    }
}

impl SendAbility for Sendable {
    fn create_arena() -> (a: DynamicArena<Self>) {
        DynamicArena::new_send()
    }
}

impl SendAbility for NonSend {
    fn create_arena() -> (a: DynamicArena<Self>) {
        DynamicArena::new_bounded()
    }
}

impl<S: SendAbility> Default for DynamicArena<S> {
    /// An empty arena with the capability tag `S`.
    fn default() -> (a: Self)
        ensures
            a.wf(),
            a.records() == Seq::<DtorRecord>::empty(),
    {
        S::create_arena()
    }
}

/// Teardown order is allocation order. When one value's cleanup is
/// registered and another's after it — whatever allocations, of any kind,
/// happen in between — the first record stands immediately where it was
/// appended and before the second in the sequence teardown surrenders,
/// so the first value's destructor runs first.
pub proof fn lemma_teardown_follows_insertion<S>(
    pre: DynamicArena<S>,
    mid: DynamicArena<S>,
    post: DynamicArena<S>,
    a: DtorRecord,
    b: DtorRecord,
)
    requires
        mid.records() == pre.records().push(a),
        post.records() == mid.records().push(b),
    ensures
        post.records().len() == pre.records().len() + 2,
        post.records()[pre.records().len() as int] == a,
        post.records()[pre.records().len() as int + 1] == b,
{
}

/// Every stored value named by a deferred-destructor record of a well-formed
/// arena is still dereferenceable: a record's value stays valid until the
/// record is surrendered at teardown.
pub proof fn lemma_records_valid<S>(a: DynamicArena<S>, k: int)
    requires
        a.wf(),
        0 <= k < a.records().len(),
    ensures
        a.valid_region(a.records()[k].value),
{
}

} // verus!
