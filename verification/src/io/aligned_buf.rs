//! Page-aligned heap buffers and pools.
//!
//! Direct reads and writes on Linux require buffers whose start address,
//! length and file offset are all multiples of the block device's logical
//! sector size: in practice the page size.
//!
//! - [`AlignedBuf`]: a single, owned, aligned byte buffer of a chosen size.
//! - [`BufferPool`]: a LIFO recycler, so that hot write paths do not allocate
//!   on each operation.
use vstd::prelude::*;
use vstd::slice::slice_subrange;

verus! {

/// Default alignment for direct I/O.
pub const PAGE_SIZE: usize = 4096;

/// `n` is a power of two.
pub open spec fn power_of_two(n: nat) -> bool
    decreases n,
{
    n == 1 || (n > 1 && n % 2 == 0 && power_of_two(n / 2))
}

/// The least multiple of `multiple` that is at least `value`.
pub open spec fn rounded_up(value: nat, multiple: nat) -> nat {
    if value % multiple == 0 {
        value
    } else {
        (value + (multiple - value % multiple)) as nat
    }
}

/// Law: rounding up gives a multiple, and the least one that is large enough.
pub proof fn law_rounded_up(value: nat, multiple: nat)
    requires
        multiple > 0,
    ensures
        rounded_up(value, multiple) % multiple == 0,
        value <= rounded_up(value, multiple) < value + multiple,
{
    let rem = value % multiple;
    vstd::arithmetic::div_mod::lemma_fundamental_div_mod(value as int, multiple as int);
    vstd::arithmetic::div_mod::lemma_mod_bound(value as int, multiple as int);
    if rem != 0 {
        let q = value as int / multiple as int;
        assert(rounded_up(value, multiple) == multiple * (q + 1)) by (nonlinear_arith)
            requires
                value == multiple * q + rem,
                rounded_up(value, multiple) == value + (multiple - rem),
        ;
        vstd::arithmetic::div_mod::lemma_mod_multiples_basic(q + 1, multiple as int);
        assert(multiple * (q + 1) == (q + 1) * multiple) by (nonlinear_arith);
    }
}

/// Round `value` up to a multiple of `multiple`.
pub fn round_up(value: usize, multiple: usize) -> (r: usize)
    requires
        multiple > 0,
        rounded_up(value as nat, multiple as nat) <= usize::MAX,
    ensures
        r == rounded_up(value as nat, multiple as nat),
{
    let rem: usize = value % multiple;
    if rem == 0 {
        value
    } else {
        value + (multiple - rem)
    }
}

/// Calls `as_ptr` and gives the address. Nothing is claimed of the result: it
/// depends on where the allocator put the bytes.
#[verifier::external_body]
fn address_of(bytes: &[u8]) -> usize {
    bytes.as_ptr() as usize
}

/// A heap-allocated byte buffer whose start address is a multiple of its
/// alignment, and whose length is too. Its view is the bytes.
///
/// The buffer is a part of a storage that is one unit of alignment longer. The
/// storage stays where it was allocated.
pub struct AlignedBuf {
    storage: Vec<u8>,
    /// Address of the storage's first byte.
    base: usize,
    start: usize,
    len: usize,
    align: usize,
}

impl View for AlignedBuf {
    type V = Seq<u8>;

    closed spec fn view(&self) -> Seq<u8> {
        self.storage@.subrange(self.start as int, self.start + self.len)
    }
}

/// Length of the buffer for a request: at least one unit of alignment.
pub open spec fn buffer_len(len: nat, align: nat) -> nat {
    if len == 0 {
        align
    } else {
        rounded_up(len, align)
    }
}

/// A buffer for a request can be held in one allocation.
pub open spec fn allocatable(len: nat, align: nat) -> bool {
    buffer_len(len, align) + align <= isize::MAX
}

/// Law: a buffer is as long as was asked for, and no longer than it takes to be one
/// or more units of alignment. Every buffer is given that leaves two units of the
/// address space that one allocation may take.
pub proof fn law_buffer_len(len: nat, align: nat)
    requires
        align > 0,
    ensures
        buffer_len(len, align) >= len,
        buffer_len(len, align) >= align,
        buffer_len(len, align) % align == 0,
        buffer_len(len, align) < len + align || len == 0 && buffer_len(len, align) == align,
        len + 2 * align <= isize::MAX ==> allocatable(len, align),
        allocatable(len, align) ==> len + align <= isize::MAX,
{
    law_rounded_up(len, align);
    if len > 0 && buffer_len(len, align) < align {
        vstd::arithmetic::div_mod::lemma_small_mod(buffer_len(len, align), align);
    }
    if len == 0 {
        vstd::arithmetic::div_mod::lemma_mod_self_0(align as int);
    }
}

/// The buffer is fresh: zeroed, as long as the request asks for, and aligned.
pub open spec fn fresh_for(b: AlignedBuf, len: nat, align: nat) -> bool {
    &&& b.wf()
    &&& b@ == Seq::new(buffer_len(len, align), |i: int| 0u8)
    &&& b.spec_alignment() == align
    &&& b.address() % align as int == 0
}

impl AlignedBuf {
    /// The buffer lies inside its storage, is one or more units of alignment
    /// long, and its address is a multiple of the alignment.
    pub closed spec fn wf(&self) -> bool {
        &&& self.start + self.len <= self.storage@.len()
        &&& self.align > 0
        &&& self.len > 0
        &&& self.len % self.align == 0
        &&& self.address() % self.align as int == 0
    }

    /// The alignment that was asked for.
    pub closed spec fn spec_alignment(&self) -> usize {
        self.align
    }

    /// Address of the buffer's first byte.
    pub closed spec fn address(&self) -> int {
        self.base + self.start
    }

    /// Law: a buffer is aligned, in its address and in its length.
    pub proof fn law_aligned(&self)
        requires
            self.wf(),
        ensures
            self.spec_alignment() > 0,
            self.address() % self.spec_alignment() as int == 0,
            self@.len() > 0,
            self@.len() % self.spec_alignment() as nat == 0,
    {
    }

    /// Allocate a zeroed buffer of `len` bytes aligned to [`PAGE_SIZE`].
    ///
    /// `len` is rounded up to the next multiple of the alignment. Returns
    /// `None` for a buffer that no allocation could hold.
    pub fn new(len: usize) -> (r: Option<AlignedBuf>)
        ensures
            r is Some <==> allocatable(len as nat, 4096),
            r matches Some(b) ==> fresh_for(b, len as nat, 4096),
    {
        proof {
            reveal_with_fuel(power_of_two, 13);
        }
        AlignedBuf::with_alignment(len, PAGE_SIZE)
    }

    /// Allocate a zeroed buffer of `len` bytes aligned to `align`, which must
    /// be a power of two.
    pub fn with_alignment(len: usize, align: usize) -> (r: Option<AlignedBuf>)
        requires
            power_of_two(align as nat),
        ensures
            r is Some <==> allocatable(len as nat, align as nat),
            r matches Some(b) ==> fresh_for(b, len as nat, align as nat),
    {
        proof {
            law_rounded_up(len as nat, align as nat);
        }
        let wanted: u128 = if len == 0 {
            align as u128
        } else {
            let rem: usize = len % align;
            if rem == 0 {
                len as u128
            } else {
                len as u128 + (align - rem) as u128
            }
        };
        if wanted + align as u128 > isize::MAX as u128 {
            return None;
        }
        let rounded: usize = wanted as usize;
        let storage: Vec<u8> = vec![0u8; rounded + align];
        let base: usize = address_of(storage.as_slice());
        let ghost zeros = storage@;
        let b = AlignedBuf::at_address(storage, base, rounded, align);
        proof {
            law_rounded_up(base as nat, align as nat);
            let start = b.address() - base;
            assert(zeros.subrange(start, start + rounded) =~= Seq::new(
                buffer_len(len as nat, align as nat),
                |i: int| 0u8,
            ));
        }
        Some(b)
    }

    /// The buffer of `len` bytes in a storage that begins at address `base`: it
    /// begins at the first address from there on that is aligned.
    pub fn at_address(storage: Vec<u8>, base: usize, len: usize, align: usize) -> (b: AlignedBuf)
        requires
            align > 0,
            len > 0,
            len % align == 0,
            storage@.len() == len + align,
        ensures
            b.wf(),
            b.spec_alignment() == align,
            b.address() == rounded_up(base as nat, align as nat),
            b.address() % align as int == 0,
            b@ == storage@.subrange(b.address() - base, b.address() - base + len),
    {
        proof {
            law_rounded_up(base as nat, align as nat);
        }
        let rem: usize = base % align;
        let start: usize = if rem == 0 {
            0
        } else {
            align - rem
        };
        let b = AlignedBuf { storage, base, start, len, align };
        assert(b@ =~= storage@.subrange(start as int, start + len));
        b
    }

    /// Borrow as an immutable byte slice.
    pub fn as_slice(&self) -> (s: &[u8])
        requires
            self.wf(),
        ensures
            s@ == self@,
    {
        assert(self.storage.len() == self.storage@.len());
        slice_subrange(self.storage.as_slice(), self.start, self.start + self.len)
    }

    /// Borrow as a mutable byte slice.
    pub fn as_mut_slice(&mut self) -> (s: &mut [u8])
        requires
            old(self).wf(),
        ensures
            s@ == old(self)@,
            final(s)@.len() == s@.len() ==> final(self)@ == final(s)@ && final(self).wf(),
            final(self).spec_alignment() == old(self).spec_alignment(),
            final(self).address() == old(self).address(),
    {
        let (_, tail) = self.storage.as_mut_slice().split_at_mut(self.start);
        let (body, _) = tail.split_at_mut(self.len);
        body
    }

    /// The alignment the buffer was allocated with.
    pub fn alignment(&self) -> (a: usize)
        ensures
            a == self.spec_alignment(),
    {
        self.align
    }

    /// The buffer length in bytes, always a multiple of the alignment.
    pub fn len(&self) -> (n: usize)
        requires
            self.wf(),
        ensures
            n == self@.len(),
            n > 0,
            self.spec_alignment() > 0 && n % self.spec_alignment() == 0,
    {
        self.len
    }

    /// `true` if the buffer is zero-length.
    pub fn is_empty(&self) -> (r: bool)
        requires
            self.wf(),
        ensures
            r == (self@.len() == 0),
    {
        self.len == 0
    }
}

/// LIFO pool of [`AlignedBuf`].
pub struct BufferPool {
    free: Vec<AlignedBuf>,
    buf_size: usize,
    align: usize,
    capacity: usize,
}

impl BufferPool {
    /// The parked buffers, the one that leaves next at the end.
    pub closed spec fn parked(&self) -> Seq<AlignedBuf> {
        self.free@
    }

    /// Size of the pool's buffers.
    pub closed spec fn size(&self) -> usize {
        self.buf_size
    }

    /// Alignment of the pool's buffers.
    pub closed spec fn unit(&self) -> usize {
        self.align
    }

    /// Number of buffers that the pool keeps at most.
    pub closed spec fn limit(&self) -> usize {
        self.capacity
    }

    /// Every parked buffer can be used.
    pub open spec fn wf(&self) -> bool {
        forall|i: int| 0 <= i < self.parked().len() ==> (#[trigger] self.parked()[i]).wf()
    }

    /// The same pool but for what is parked.
    pub open spec fn same_settings(&self, other: BufferPool) -> bool {
        &&& self.size() == other.size()
        &&& self.unit() == other.unit()
        &&& self.limit() == other.limit()
    }

    /// Create an empty pool sized for buffers of `buf_size` bytes each,
    /// aligned to `align`. Up to `capacity` buffers are retained when
    /// returned.
    pub fn new(buf_size: usize, align: usize, capacity: usize) -> (p: BufferPool)
        ensures
            p.wf(),
            p.parked().len() == 0,
            p.size() == buf_size,
            p.unit() == align,
            p.limit() == capacity,
    {
        BufferPool { free: Vec::new(), buf_size, align, capacity }
    }

    /// Default-sized pool: 16 KiB buffers, 4 KiB-aligned, 64 retained.
    pub fn for_sstable_blocks() -> (p: BufferPool)
        ensures
            p.wf(),
            p.parked().len() == 0,
            p.size() == 16384,
            p.unit() == 4096,
            p.limit() == 64,
            power_of_two(p.unit() as nat),
    {
        proof {
            reveal_with_fuel(power_of_two, 13);
        }
        BufferPool::new(16384, PAGE_SIZE, 64)
    }

    /// Take a buffer from the pool, allocating fresh if the pool is empty.
    pub fn acquire(&mut self) -> (r: Option<AlignedBuf>)
        requires
            old(self).wf(),
            power_of_two(old(self).unit() as nat),
        ensures
            final(self).wf(),
            final(self).same_settings(*old(self)),
            r matches Some(b) ==> b.wf() && b.address() % b.spec_alignment() as int == 0,
            old(self).parked().len() > 0 ==> r == Some(old(self).parked().last())
                && final(self).parked() == old(self).parked().drop_last(),
            old(self).parked().len() == 0 ==> {
                let (size, unit) = (old(self).size() as nat, old(self).unit() as nat);
                &&& final(self).parked() == old(self).parked()
                &&& r is Some <==> allocatable(size, unit)
                &&& r matches Some(b) ==> fresh_for(b, size, unit)
            },
    {
        match self.free.pop() {
            Some(b) => Some(b),
            None => AlignedBuf::with_alignment(self.buf_size, self.align),
        }
    }

    /// Return a buffer to the pool. Buffers above the pool's capacity, or with
    /// the wrong size or alignment, are dropped instead of being retained.
    pub fn release(&mut self, buf: AlignedBuf)
        requires
            old(self).wf(),
            buf.wf(),
        ensures
            final(self).wf(),
            final(self).same_settings(*old(self)),
            final(self).parked() == (if old(self).parked().len() < old(self).limit() && buf@.len()
                == old(self).size() && buf.spec_alignment() == old(self).unit() {
                old(self).parked().push(buf)
            } else {
                old(self).parked()
            }),
    {
        if self.free.len() < self.capacity && buf.len() == self.buf_size && buf.alignment()
            == self.align {
            self.free.push(buf);
        }
    }

    /// Number of buffers currently parked in the pool.
    pub fn idle_count(&self) -> (n: usize)
        ensures
            n == self.parked().len(),
    {
        self.free.len()
    }
}

} // verus!
