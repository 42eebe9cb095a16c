//! The memory arena: allocation primitives over the guest's linear memory.
//!
//! The host addresses guest memory only through (pointer, length) pairs.  A
//! pointer here is an opaque non-zero handle chosen by the arena; pointer `0`
//! together with a non-positive length is the uniform "no data" signal and is
//! never dereferenced.  The arena is the sole owner of the allocation state:
//! a block exists from `allocate` or `leak_bytes` until exactly one `free`.

use vstd::prelude::*;

verus! {

/// The largest number of blocks an arena can hand out: every pointer must be
/// a positive `i32`.
pub open spec fn max_blocks() -> nat {
    0x7FFF_FFFE
}

/// Allocation state of the guest's linear memory.
///
/// Its view is the map from each live pointer to the bytes stored behind it.
/// Pointers are never reused: a freed slot stays retired, so a stale pointer
/// can never alias a later allocation.
pub struct Arena {
    blocks: Vec<Option<Vec<u8>>>,
}

impl Arena {
    /// True of the pointers the arena has currently handed out and not freed.
    pub closed spec fn live(&self, p: int) -> bool {
        1 <= p <= self.blocks@.len() && self.blocks@[p - 1] is Some
    }

    /// How many pointers the arena has handed out over its lifetime,
    /// freed ones included.
    pub closed spec fn blocks_used(&self) -> nat {
        self.blocks@.len()
    }

    /// The arena can still hand out a fresh pointer.
    pub open spec fn can_alloc(&self) -> bool {
        self.blocks_used() < max_blocks()
    }

    /// Whether a fresh pointer can still be handed out; callers outside the
    /// verified library test this before allocating or leaking.
    pub fn can_allocate(&self) -> (b: bool)
        ensures
            b == self.can_alloc(),
    {
        self.blocks.len() < 0x7FFF_FFFE
    }

    /// Whether `(ptr, len)` names a live block of exactly `len` bytes;
    /// callers outside the verified library test this before releasing or
    /// reading.
    pub fn has_block(&self, ptr: i32, len: i32) -> (b: bool)
        ensures
            b == (self@.contains_key(ptr as int) && self@[ptr as int].len() == len as int),
    {
        if ptr < 1 || len < 0 {
            return false;
        }
        let idx = (ptr - 1) as usize;
        if idx >= self.blocks.len() {
            return false;
        }
        match &self.blocks[idx] {
            Some(b) => b.len() == len as usize,
            None => false,
        }
    }

    /// Builds an arena with no live blocks.
    pub fn new() -> (r: Arena)
        ensures
            r@ == Map::<int, Seq<u8>>::empty(),
            r.blocks_used() == 0,
    {
        let r = Arena { blocks: Vec::new() };
        proof {
            assert(r@ =~= Map::<int, Seq<u8>>::empty());
        }
        r
    }
}

impl View for Arena {
    type V = Map<int, Seq<u8>>;

    closed spec fn view(&self) -> Map<int, Seq<u8>> {
        Map::new(|p: int| self.live(p), |p: int| self.blocks@[p - 1]->0@)
    }
}

/// What reading `len` bytes at `ptr` out of memory state `m` yields: the
/// stored block, or no bytes at all for the null/empty signal.
pub open spec fn spec_read(m: Map<int, Seq<u8>>, ptr: int, len: int) -> Seq<u8> {
    if ptr == 0 || len <= 0 {
        Seq::empty()
    } else {
        m[ptr]
    }
}

/// Allocates a zero-initialized block of `len` bytes and returns its pointer,
/// now owned by the caller.  A non-positive length yields the null pointer
/// and leaves memory untouched.
pub fn allocate(arena: &mut Arena, len: i32) -> (ptr: i32)
    requires
        len > 0 ==> old(arena).can_alloc(),
    ensures
        len <= 0 ==> ptr == 0 && final(arena)@ == old(arena)@ && final(arena).blocks_used()
            == old(arena).blocks_used(),
        len > 0 ==> {
            &&& ptr > 0
            &&& !old(arena)@.contains_key(ptr as int)
            &&& final(arena)@ == old(arena)@.insert(ptr as int, Seq::new(len as nat, |i: int| 0u8))
            &&& final(arena).blocks_used() == old(arena).blocks_used() + 1
        },
{
    if len <= 0 {
        return 0;
    }
    let n = len as usize;
    let mut buf: Vec<u8> = Vec::new();
    let mut i: usize = 0;
    while i < n
        invariant
            i <= n,
            buf@ =~= Seq::new(i as nat, |j: int| 0u8),
        decreases n - i,
    {
        buf.push(0u8);
        i = i + 1;
    }
    let ptr = (arena.blocks.len() + 1) as i32;
    arena.blocks.push(Some(buf));
    proof {
        assert(arena@ =~= old(arena)@.insert(ptr as int, Seq::new(len as nat, |i: int| 0u8)));
    }
    ptr
}

/// Reclaims the block behind `ptr`, which must have come from `allocate` or
/// `leak_bytes` with exactly this length.  A null pointer or non-positive
/// length is a no-op, never an error, so the "no data" signal is always safe
/// to release.
pub fn free(arena: &mut Arena, ptr: i32, len: i32)
    requires
        ptr != 0 && len > 0 ==> old(arena)@.contains_key(ptr as int) && old(arena)@[ptr as int].len()
            == len as int,
    ensures
        ptr == 0 || len <= 0 ==> final(arena)@ == old(arena)@,
        ptr != 0 && len > 0 ==> final(arena)@ == old(arena)@.remove(ptr as int),
        final(arena).blocks_used() == old(arena).blocks_used(),
{
    if ptr == 0 || len <= 0 {
        return;
    }
    let idx = (ptr - 1) as usize;
    arena.blocks.set(idx, None);
    proof {
        assert(arena@ =~= old(arena)@.remove(ptr as int));
    }
}

/// Hands a buffer's ownership outward: the bytes stay resident and their
/// (pointer, length) pair is returned for the caller to read and eventually
/// `free`.  An empty buffer becomes `(0, 0)`, keeping the convention that
/// null-or-empty means "no data".
pub fn leak_bytes(arena: &mut Arena, bytes: Vec<u8>) -> (r: (i32, i32))
    requires
        bytes@.len() > 0 ==> old(arena).can_alloc(),
        bytes@.len() <= 0x7FFF_FFFF,
    ensures
        bytes@.len() == 0 ==> r == (0i32, 0i32) && final(arena)@ == old(arena)@ && final(arena).blocks_used() == old(arena).blocks_used(),
        bytes@.len() > 0 ==> {
            &&& r.0 > 0
            &&& r.1 == bytes@.len()
            &&& !old(arena)@.contains_key(r.0 as int)
            &&& final(arena)@ == old(arena)@.insert(r.0 as int, bytes@)
            &&& final(arena).blocks_used() == old(arena).blocks_used() + 1
        },
{
    if bytes.len() == 0 {
        return (0, 0);
    }
    let len = bytes.len() as i32;
    let ptr = (arena.blocks.len() + 1) as i32;
    arena.blocks.push(Some(bytes));
    proof {
        assert(arena@ =~= old(arena)@.insert(ptr as int, bytes@));
    }
    (ptr, len)
}

/// Copies the block behind `ptr` out of the arena; the null/empty signal
/// reads as no bytes.  The arena keeps ownership of the block.
pub fn read_bytes(arena: &Arena, ptr: i32, len: i32) -> (r: Vec<u8>)
    requires
        ptr != 0 && len > 0 ==> arena@.contains_key(ptr as int) && arena@[ptr as int].len()
            == len as int,
    ensures
        r@ == spec_read(arena@, ptr as int, len as int),
{
    if ptr == 0 || len <= 0 {
        return Vec::new();
    }
    let idx = (ptr - 1) as usize;
    let block = arena.blocks[idx].as_ref().unwrap();
    let n = block.len();
    let mut out: Vec<u8> = Vec::new();
    let mut i: usize = 0;
    while i < n
        invariant
            i <= n,
            n == block@.len(),
            block@ == arena@[ptr as int],
            out@ =~= block@.subrange(0, i as int),
        decreases n - i,
    {
        out.push(block[i]);
        i = i + 1;
    }
    proof {
        assert(out@ =~= arena@[ptr as int]);
    }
    out
}

/// A non-empty buffer handed outward by `leak_bytes` reads back exactly as
/// it was handed over: after its bytes stand in memory at the returned
/// pointer, reading that pointer with its length yields them unchanged.
pub proof fn lemma_leak_read(m: Map<int, Seq<u8>>, p: int, b: Seq<u8>)
    requires
        p != 0,
        b.len() > 0,
    ensures
        spec_read(m.insert(p, b), p, b.len() as int) == b,
{
}

/// Overwrites the block behind `ptr`, which must be live with exactly the
/// buffer's length: how the host fills an allocation before a call.  The
/// block's ownership does not move.
pub fn write_bytes(arena: &mut Arena, ptr: i32, bytes: &[u8])
    requires
        old(arena)@.contains_key(ptr as int),
        old(arena)@[ptr as int].len() == bytes@.len(),
    ensures
        final(arena)@ == old(arena)@.insert(ptr as int, bytes@),
{
    let idx = (ptr - 1) as usize;
    arena.blocks.set(idx, Some(vstd::slice::slice_to_vec(bytes)));
    proof {
        assert(arena@ =~= old(arena)@.insert(ptr as int, bytes@));
    }
}

} // verus!
