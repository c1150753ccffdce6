//! Bump allocator for the bytes of skip-list nodes.
//!
//! Memory is grown as a list of slabs. Allocations bump an offset inside the
//! newest slab; when it is too full to satisfy a request, the arena adds a
//! slab (twice the size of the one before, up to a cap). A [`Region`] names
//! bytes of the arena. Regions never move and never overlap, and what is
//! written to one stays as it is.
use vstd::prelude::*;
use vstd::slice::slice_subrange;

use crate::io::aligned_buf::{law_rounded_up, power_of_two, round_up, rounded_up};

verus! {

/// Default initial slab size: 256 KiB. Doubles up to [`MAX_SLAB_SIZE`].
pub const INITIAL_SLAB_SIZE: usize = 262144;

/// Slab growth cap: 4 MiB.
pub const MAX_SLAB_SIZE: usize = 4194304;

/// Default alignment for arena allocations.
pub const DEFAULT_ALIGN: usize = 8;

/// Bytes at the start of every slab that are not dispensed.
pub const SLAB_HEADER_SIZE: usize = 16;

/// Bytes of an arena: a slab, a start inside it, and a length.
#[derive(Debug, Clone, Copy, PartialEq, Eq, Structural)]
pub struct Region {
    /// Index of the slab.
    pub slab: usize,
    /// Offset of the first byte inside the slab.
    pub start: usize,
    /// Number of bytes.
    pub len: usize,
}

impl Region {
    /// The part of the region from `from` on that has `len` bytes.
    pub fn part(&self, from: usize, len: usize) -> (r: Region)
        requires
            from + len <= self.len,
            self.start + self.len <= usize::MAX,
        ensures
            r == (Region { slab: self.slab, start: (self.start + from) as usize, len }),
    {
        Region { slab: self.slab, start: self.start + from, len }
    }
}

/// The sum, or the greatest number that can be counted.
pub open spec fn capped(n: int) -> usize {
    if n <= usize::MAX {
        n as usize
    } else {
        usize::MAX
    }
}

/// Bytes that a request takes.
pub open spec fn taken(size: nat, align: nat) -> nat {
    if size == 0 {
        1
    } else {
        rounded_up(size, align)
    }
}

/// Law: a request takes a byte at least, all that it asks for, and no more than it
/// takes to end at a multiple of the alignment.
pub proof fn law_taken(size: nat, align: nat)
    requires
        align > 0,
    ensures
        taken(size, align) >= 1,
        taken(size, align) >= size,
        taken(size, align) < size + align || size == 0 && taken(size, align) == 1,
        size > 0 ==> taken(size, align) % align == 0,
{
    law_rounded_up(size, align);
}

/// The sum of a sequence.
pub open spec fn total(s: Seq<nat>) -> nat
    decreases s.len(),
{
    if s.len() == 0 {
        0
    } else {
        total(s.drop_last()) + s.last()
    }
}

/// Bytes that each of a sequence of requests takes.
pub open spec fn takings(sizes: Seq<nat>, aligns: Seq<nat>) -> Seq<nat> {
    Seq::new(sizes.len(), |i: int| taken(sizes[i], aligns[i]))
}

/// Bump allocator.
#[derive(Debug)]
pub struct Arena {
    slabs: Vec<Vec<u8>>,
    /// Free byte offset within the newest slab, behind its header.
    bump_offset: usize,
    /// Capacity of the next slab to allocate.
    next_slab_size: usize,
    bytes_used: usize,
    bytes_reserved: usize,
}

impl Arena {
    /// The bump offset lies in the newest slab, slabs grow within bounds, and
    /// the two counts fit the slabs: what is reserved is their sum, and no more
    /// is used than lies before the bump offset.
    pub closed spec fn wf(&self) -> bool {
        &&& self.slabs@.len() > 0 ==> SLAB_HEADER_SIZE + self.bump_offset
            <= self.slabs@.last()@.len()
        &&& INITIAL_SLAB_SIZE <= self.next_slab_size <= MAX_SLAB_SIZE
        &&& self.bytes_reserved == capped(total(self.slab_sizes()) as int)
        &&& self.slabs@.len() == 0 ==> self.bytes_used == 0
        &&& self.slabs@.len() > 0 ==> self.bytes_used <= total(self.slab_sizes().drop_last())
            + self.bump_offset
    }

    /// The region was dispensed.
    pub closed spec fn holds(&self, r: Region) -> bool {
        &&& r.slab < self.slabs@.len()
        &&& r.start + r.len <= (if r.slab == self.slabs@.len() - 1 {
            SLAB_HEADER_SIZE + self.bump_offset
        } else {
            self.slabs@[r.slab as int]@.len() as int
        })
        &&& r.start + r.len <= self.slabs@[r.slab as int]@.len()
        &&& r.start + r.len <= usize::MAX
    }

    /// The bytes of a region.
    pub closed spec fn at(&self, r: Region) -> Seq<u8> {
        self.slabs@[r.slab as int]@.subrange(r.start as int, r.start + r.len)
    }

    /// Bytes dispensed so far.
    pub closed spec fn used(&self) -> usize {
        self.bytes_used
    }

    /// Bytes held across all slabs.
    pub closed spec fn reserved(&self) -> usize {
        self.bytes_reserved
    }

    /// Capacity of each slab, the newest last.
    pub closed spec fn slab_sizes(&self) -> Seq<nat> {
        self.slabs@.map_values(|slab: Vec<u8>| slab@.len())
    }

    /// How far the newest slab is filled, its header counted in.
    pub closed spec fn filled(&self) -> nat {
        (SLAB_HEADER_SIZE + self.bump_offset) as nat
    }

    /// Capacity that the next slab has at least.
    pub closed spec fn next_slab(&self) -> nat {
        self.next_slab_size as nat
    }

    /// What dispensing `size` bytes as region `r` does. It bumps the offset in
    /// the newest slab where the bytes fit there. Otherwise it adds a slab,
    /// large enough for them, and the one after that is to be twice the size,
    /// up to the cap.
    pub open spec fn dispensed(before: Arena, after: Arena, r: Region, size: nat, align: nat) -> bool {
        let sizes = before.slab_sizes();
        let at = rounded_up(before.filled(), align);
        let enough = taken(size, align) + SLAB_HEADER_SIZE + align;
        let capacity = if enough > before.next_slab() {
            enough as nat
        } else {
            before.next_slab()
        };
        &&& after.filled() == r.start + taken(size, align)
        &&& after.used() == capped(before.used() + taken(size, align))
        &&& r.len == size
        &&& if sizes.len() > 0 && at + taken(size, align) <= sizes.last() {
            &&& r.slab == sizes.len() - 1
            &&& r.start == at
            &&& after.slab_sizes() == sizes
            &&& after.next_slab() == before.next_slab()
            &&& after.reserved() == before.reserved()
        } else {
            &&& r.slab == sizes.len()
            &&& r.start == rounded_up(SLAB_HEADER_SIZE as nat, align)
            &&& after.slab_sizes() == sizes.push(capacity)
            &&& after.next_slab() == (if 2 * before.next_slab() > MAX_SLAB_SIZE {
                MAX_SLAB_SIZE as nat
            } else {
                2 * before.next_slab()
            })
            &&& after.reserved() == capped(before.reserved() + capacity)
        }
    }

    /// Every region dispensed before is still there, with the same bytes.
    pub open spec fn keeps(&self, before: Arena) -> bool {
        forall|r: Region|
            #[trigger] before.holds(r) ==> self.holds(r) && self.at(r) == before.at(r)
    }

    /// Law: a dispensed region starts at a multiple of the alignment, behind the
    /// header and behind everything dispensed before it in its slab, and lies in the
    /// slab whole. Slabs are only added, one at most, of 256 KiB at least; a new one
    /// is added only where the request does not fit in what is left. The one after it is
    /// to be twice the size, but no more than 4 MiB.
    pub proof fn law_regions_do_not_overlap(
        before: Arena,
        after: Arena,
        r: Region,
        size: nat,
        align: nat,
    )
        requires
            before.wf(),
            Arena::dispensed(before, after, r, size, align),
            align > 0,
        ensures
            ({
                let (old_slabs, slabs) = (before.slab_sizes(), after.slab_sizes());
                &&& r.start as nat % align == 0
                &&& r.start >= 16
                &&& r.slab < slabs.len()
                &&& r.start + size <= slabs[r.slab as int]
                &&& r.slab + 1 == slabs.len()
                &&& r.start + size <= after.filled()
                &&& slabs.len() == old_slabs.len() ==> slabs == old_slabs && r.start
                    >= before.filled()
                &&& slabs.len() != old_slabs.len() ==> slabs.len() == old_slabs.len() + 1
                    && slabs.drop_last() == old_slabs && slabs.last() >= 262144
                    && slabs.last() >= before.next_slab() && after.next_slab() <= 4194304 && (
                after.next_slab() == 2 * before.next_slab() || after.next_slab() == 4194304 && 2
                    * before.next_slab() > 4194304)
                &&& old_slabs.len() > 0 && before.filled() + align + size + align
                    <= old_slabs.last() ==> slabs == old_slabs
            }),
    {
        law_rounded_up(before.filled(), align);
        law_rounded_up(16, align);
        law_rounded_up(size, align);
        let (old_slabs, slabs) = (before.slab_sizes(), after.slab_sizes());
        if slabs != old_slabs {
            assert(slabs.drop_last() =~= old_slabs);
        }
    }

    /// Law: no more bytes are dispensed than are reserved, and what is reserved
    /// is the sum of the slabs.
    pub proof fn law_used_is_reserved(&self)
        requires
            self.wf(),
        ensures
            self.used() <= self.reserved(),
            self.reserved() == capped(total(self.slab_sizes()) as int),
    {
    }

    /// Law: a fresh arena from which a sequence of requests was served has
    /// dispensed what they take: their sizes rounded up to their alignments, and
    /// one byte for an empty one. `arenas` are the arena's states, the first
    /// before any request.
    pub proof fn law_used_is_the_sum(
        arenas: Seq<Arena>,
        regions: Seq<Region>,
        sizes: Seq<nat>,
        aligns: Seq<nat>,
    )
        requires
            arenas.len() == sizes.len() + 1,
            regions.len() == sizes.len(),
            aligns.len() == sizes.len(),
            arenas[0].used() == 0,
            forall|i: int| 0 <= i < sizes.len() ==> power_of_two(#[trigger] aligns[i]),
            forall|i: int|
                0 <= i < sizes.len() ==> Arena::dispensed(
                    arenas[i],
                    arenas[i + 1],
                    #[trigger] regions[i],
                    sizes[i],
                    aligns[i],
                ),
        ensures
            arenas.last().used() == capped(total(takings(sizes, aligns)) as int),
            total(takings(sizes, aligns)) <= usize::MAX ==> arenas.last().used() == total(
                takings(sizes, aligns),
            ) && arenas.last().used() >= total(sizes),
            total(takings(sizes, aligns)) >= total(sizes),
            arenas.last().wf() ==> arenas.last().used() <= arenas.last().reserved(),
        decreases sizes.len(),
    {
        if sizes.len() > 0 {
            let n = sizes.len() - 1;
            Arena::law_used_is_the_sum(
                arenas.drop_last(),
                regions.drop_last(),
                sizes.drop_last(),
                aligns.drop_last(),
            );
            assert(takings(sizes, aligns).drop_last() =~= takings(
                sizes.drop_last(),
                aligns.drop_last(),
            ));
            assert(arenas.drop_last().last() == arenas[n]);
            assert(regions[n] == regions.last());
            assert(power_of_two(aligns[n]));
            law_rounded_up(sizes[n], aligns[n]);
        }
    }

    /// Part of a dispensed region is dispensed.
    pub proof fn lemma_part(&self, r: Region, from: int, len: int)
        requires
            self.holds(r),
            0 <= from,
            0 <= len,
            from + len <= r.len,
        ensures
            r.start + r.len <= usize::MAX,
            self.holds(Region { slab: r.slab, start: (r.start + from) as usize, len: len as usize }),
    {
    }

    /// Construct an empty arena. No memory is allocated until the first
    /// [`allocate`](Self::allocate) call.
    pub fn new() -> (a: Arena)
        ensures
            a.wf(),
            a.used() == 0,
            a.reserved() == 0,
            a.slab_sizes() == Seq::<nat>::empty(),
            a.next_slab() == INITIAL_SLAB_SIZE,
            forall|r: Region| !#[trigger] a.holds(r),
    {
        let a = Arena {
            slabs: Vec::new(),
            bump_offset: 0,
            next_slab_size: INITIAL_SLAB_SIZE,
            bytes_used: 0,
            bytes_reserved: 0,
        };
        assert(a.slab_sizes() =~= Seq::<nat>::empty());
        a
    }

    /// Total bytes the arena has dispensed to callers.
    pub fn bytes_used(&self) -> (n: usize)
        ensures
            n == self.used(),
    {
        self.bytes_used
    }

    /// Total bytes the arena currently holds across all slabs.
    pub fn bytes_reserved(&self) -> (n: usize)
        ensures
            n == self.reserved(),
    {
        self.bytes_reserved
    }

    /// Where an allocation would start in the newest slab, if it fits there.
    fn place(&self, req: usize, align: usize) -> (r: Option<usize>)
        requires
            self.wf(),
            align > 0,
        ensures
            r matches Some(at) ==> self.slabs@.len() > 0 && at == rounded_up(
                (SLAB_HEADER_SIZE + self.bump_offset) as nat,
                align as nat,
            ) && at + req <= self.slabs@.last()@.len(),
            r is None && self.slabs@.len() > 0 ==> rounded_up(
                (SLAB_HEADER_SIZE + self.bump_offset) as nat,
                align as nat,
            ) + req > self.slabs@.last()@.len(),
    {
        let n: usize = self.slabs.len();
        if n == 0 {
            return None;
        }
        let capacity: usize = self.slabs[n - 1].len();
        let from: usize = SLAB_HEADER_SIZE + self.bump_offset;
        let rem: usize = from % align;
        let gap: usize = if rem == 0 {
            0
        } else {
            align - rem
        };
        if gap > capacity - from || req > capacity - from - gap {
            return None;
        }
        Some(from + gap)
    }

    /// Allocate `size` bytes at an offset that is a multiple of `align`.
    ///
    /// The region stays valid for the lifetime of the arena. Its bytes mean
    /// nothing until something is written to it.
    pub fn allocate(&mut self, size: usize, align: usize) -> (r: Region)
        requires
            old(self).wf(),
            power_of_two(align as nat),
            size + 2 * align + SLAB_HEADER_SIZE <= usize::MAX,
        ensures
            final(self).wf(),
            final(self).holds(r),
            final(self).keeps(*old(self)),
            r.start % align == 0,
            forall|o: Region| #[trigger] old(self).holds(o) ==> o.slab != r.slab || o.start + o.len
                <= r.start,
            Arena::dispensed(*old(self), *final(self), r, size as nat, align as nat),
    {
        proof {
            law_rounded_up(size as nat, align as nat);
            vstd::arithmetic::div_mod::lemma_small_mod(0, align as nat);
        }
        let rounded: usize = round_up(size, align);
        let req: usize = if rounded == 0 { 1 } else { rounded };
        if self.place(req, align).is_none() {
            let enough: usize = req + SLAB_HEADER_SIZE + align;
            let capacity: usize = if enough > self.next_slab_size {
                enough
            } else {
                self.next_slab_size
            };
            self.grow(capacity);
            proof {
                law_rounded_up(SLAB_HEADER_SIZE as nat, align as nat);
            }
        }
        let ghost mid = *self;
        match self.place(req, align) {
            None => {
                assert(false);
                Region { slab: 0, start: 0, len: 0 }
            },
            Some(start) => {
                proof {
                    law_rounded_up((SLAB_HEADER_SIZE + self.bump_offset) as nat, align as nat);
                }
                let capacity: usize = self.slabs[self.slabs.len() - 1].len();
                assert(start + req <= capacity);
                self.bump_offset = start + req - SLAB_HEADER_SIZE;
                self.bytes_used = self.bytes_used.saturating_add(req);
                assert(self.slab_sizes() =~= mid.slab_sizes());
                Region { slab: self.slabs.len() - 1, start, len: size }
            },
        }
    }

    /// Copy `src` into the arena.
    pub fn copy_bytes(&mut self, src: &[u8]) -> (r: Region)
        requires
            old(self).wf(),
            src@.len() + 18 <= usize::MAX,
        ensures
            final(self).wf(),
            final(self).holds(r),
            final(self).at(r) == src@,
            final(self).keeps(*old(self)),
            Arena::dispensed(*old(self), *final(self), r, src@.len(), 1),
    {
        let r: Region = self.allocate(src.len(), 1);
        let ghost mid = *self;
        self.write(r, src);
        proof {
            assert forall|o: Region| #[trigger] old(self).holds(o) implies self.holds(o)
                && self.at(o) == old(self).at(o) by {
                assert(mid.holds(o));
            }
        }
        r
    }

    /// Fill a region. Regions that do not overlap it keep their bytes.
    pub fn write(&mut self, r: Region, src: &[u8])
        requires
            old(self).wf(),
            old(self).holds(r),
            src@.len() == r.len,
        ensures
            final(self).wf(),
            final(self).at(r) == src@,
            forall|o: Region| #[trigger] final(self).holds(o) == old(self).holds(o),
            forall|o: Region|
                old(self).holds(o) && (o.slab != r.slab || o.start + o.len <= r.start || r.start
                    + r.len <= o.start) ==> #[trigger] final(self).at(o) == old(self).at(o),
            final(self).used() == old(self).used(),
            final(self).reserved() == old(self).reserved(),
            final(self).slab_sizes() == old(self).slab_sizes(),
            final(self).filled() == old(self).filled(),
            final(self).next_slab() == old(self).next_slab(),
    {
        let mut slab: Vec<u8> = Vec::new();
        let ghost before = self.slabs@;
        let ghost k = r.slab as int;
        std::mem::swap(&mut slab, &mut self.slabs[r.slab]);
        let ghost old_bytes = slab@;
        let mut i: usize = 0;
        while i < r.len
            invariant
                i <= r.len,
                r.len == src@.len(),
                r.start + r.len <= old_bytes.len(),
                slab@.len() == old_bytes.len(),
                forall|j: int|
                    0 <= j < old_bytes.len() ==> slab@[j] == (if r.start <= j < r.start + i {
                        src@[j - r.start]
                    } else {
                        old_bytes[j]
                    }),
            decreases r.len - i,
        {
            assert(slab.len() == slab@.len());
            slab.set(r.start + i, src[i]);
            i += 1;
        }
        self.slabs.set(r.slab, slab);
        proof {
            assert(old_bytes == before[k]@);
            assert(self.slabs@ =~= before.update(k, slab));
            assert(self.slab_sizes() =~= old(self).slab_sizes());
            assert(self.at(r) =~= src@);
            assert forall|o: Region|
                old(self).holds(o) && (o.slab != r.slab || o.start + o.len <= r.start || r.start
                    + r.len <= o.start) implies #[trigger] self.at(o) == old(self).at(o) by {
                assert(self.at(o) =~= old(self).at(o));
            }
        }
    }

    /// Borrow the bytes of a region.
    pub fn read(&self, r: Region) -> (s: &[u8])
        requires
            self.holds(r),
        ensures
            s@ == self.at(r),
    {
        let slab: &[u8] = self.slabs[r.slab].as_slice();
        assert(slab.len() == slab@.len());
        slice_subrange(slab, r.start, r.start + r.len)
    }

    /// Add a slab of `capacity` bytes.
    fn grow(&mut self, capacity: usize)
        requires
            old(self).wf(),
            capacity >= SLAB_HEADER_SIZE,
        ensures
            final(self).wf(),
            final(self).slabs@.len() == old(self).slabs@.len() + 1,
            final(self).slabs@.last()@.len() == capacity,
            final(self).bump_offset == 0,
            final(self).used() == old(self).used(),
            final(self).reserved() == capped(old(self).reserved() + capacity),
            final(self).slab_sizes() == old(self).slab_sizes().push(capacity as nat),
            final(self).next_slab() == (if 2 * old(self).next_slab() > MAX_SLAB_SIZE {
                MAX_SLAB_SIZE as nat
            } else {
                2 * old(self).next_slab()
            }),
            final(self).keeps(*old(self)),
            forall|o: Region| #[trigger] old(self).holds(o) ==> o.slab < old(self).slabs@.len(),
    {
        let slab: Vec<u8> = vec![0u8; capacity];
        self.slabs.push(slab);
        self.bump_offset = 0;
        self.bytes_reserved = self.bytes_reserved.saturating_add(capacity);
        self.next_slab_size = if self.next_slab_size > MAX_SLAB_SIZE / 2 {
            MAX_SLAB_SIZE
        } else {
            self.next_slab_size * 2
        };
        proof {
            assert(self.slab_sizes() =~= old(self).slab_sizes().push(capacity as nat));
            assert(self.slab_sizes().drop_last() =~= old(self).slab_sizes());
            assert forall|r: Region| #[trigger] old(self).holds(r) implies self.holds(r) && self.at(
                r,
            ) == old(self).at(r) by {
                assert(self.slabs@[r.slab as int] == old(self).slabs@[r.slab as int]);
            }
        }
    }
}

impl Default for Arena {
    fn default() -> (a: Arena)
        ensures
            a.wf(),
            a.used() == 0,
            a.reserved() == 0,
            a.slab_sizes() == Seq::<nat>::empty(),
            a.next_slab() == INITIAL_SLAB_SIZE,
    {
        Arena::new()
    }
}

} // verus!
