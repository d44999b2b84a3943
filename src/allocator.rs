//! The arena's occupancy bitmap and its first-fit search.

use vstd::prelude::*;
use crate::bitmap::{
    align_up, bit, fits, is_first_fit, lemma_align_up, lemma_free_range_disjoint, lemma_range_mask_bit, no_fit,
    range_free, range_mask, range_used, search_outcome, GROUP_BITS,
};

verus! {

/// Number of words in the arena.
pub const MEM_SIZE: usize = 2048;

/// Number of occupancy groups of the arena.
pub const GROUPS: usize = MEM_SIZE / GROUP_BITS;

/// Width of one arena word in bytes.
pub const WORD_BYTES: usize = 8;

/// The unrecoverable conditions of the allocator and of the vectors built
/// on it.
#[derive(Debug, Clone, Copy, PartialEq, Eq, Structural)]
pub enum AllocError {
    /// No group holds a free, aligned run of the requested length.
    Exhausted,
    /// A push onto a vector that already holds its capacity.
    CapacityOverflow,
    /// A release at an offset past the end of the arena.
    OutOfRange,
}

/// Words needed to hold `bytes` bytes.
pub open spec fn words_for(bytes: nat) -> nat {
    (bytes + 7) / 8
}

/// Footprint in words of `n` values of `T`.
pub open spec fn array_words<T>(n: nat) -> nat {
    words_for(n * vstd::layout::size_of::<T>())
}

/// Footprint in words of one value of `T`; allocations of `T` are also
/// aligned to this many words.
pub open spec fn obj_words<T>() -> nat {
    words_for(vstd::layout::size_of::<T>())
}

/// Words needed to hold `bytes` bytes, rounded up.
fn words(bytes: usize) -> (w: usize)
    ensures
        w as nat == words_for(bytes as nat),
{
    bytes / WORD_BYTES + if bytes % WORD_BYTES == 0 {
        0
    } else {
        1
    }
}

/// Where `n * t` does not fit in a `usize`, the request is longer than any
/// group.
proof fn lemma_overflow_too_long(n: usize, t: usize)
    requires
        t > 0,
        n > usize::MAX / t,
    ensures
        words_for(n as nat * t as nat) > 64,
{
    let m = usize::MAX as int;
    let ti = t as int;
    let ni = n as int;
    vstd::arithmetic::div_mod::lemma_fundamental_div_mod(m, ti);
    assert(ni * ti > m) by (nonlinear_arith)
        requires
            m == ti * (m / ti) + m % ti,
            m % ti < ti,
            ni >= m / ti + 1,
            ti > 0,
    ;
}

/// The first group where the request fits holds it at offset `off`, at the
/// lowest position where it fits in that group.
pub open spec fn placed_at(groups: Seq<u64>, size: nat, align: nat, off: nat) -> bool {
    &&& off / 64 < groups.len()
    &&& is_first_fit(groups[(off / 64) as int], size, align, off % 64)
    &&& forall|g: int| 0 <= g < off / 64 ==> no_fit(#[trigger] groups[g], size, align)
}

/// The request fits in no group.
pub open spec fn no_room(groups: Seq<u64>, size: nat, align: nat) -> bool {
    forall|g: int| 0 <= g < groups.len() ==> no_fit(#[trigger] groups[g], size, align)
}

/// The groups with the `size` words at offset `off` marked in use.
pub open spec fn mark(groups: Seq<u64>, off: nat, size: nat) -> Seq<u64> {
    groups.update((off / 64) as int, groups[(off / 64) as int] | range_mask(off % 64, size))
}

/// Length of the run that a release of `size` words at in-group position
/// `p` clears: the run is cut at the end of the group.
pub open spec fn clamp_len(p: nat, size: nat) -> nat {
    if p + size <= 64 {
        size
    } else {
        (64 - p) as nat
    }
}

/// The groups with the `size` words at offset `off`, cut at the end of
/// their group, marked free.
pub open spec fn clear(groups: Seq<u64>, off: nat, size: nat) -> Seq<u64> {
    groups.update(
        (off / 64) as int,
        groups[(off / 64) as int] & !range_mask(off % 64, clamp_len(off % 64, size)),
    )
}

/// What an allocation of `size` words aligned to `align` words does to the
/// groups: it marks the first fit and returns its offset, or, where the
/// request fits nowhere, fails with `Exhausted` and changes nothing.
pub open spec fn alloc_outcome(
    before: Seq<u64>,
    size: nat,
    align: nat,
    r: Result<usize, AllocError>,
    after: Seq<u64>,
) -> bool {
    match r {
        Ok(off) => placed_at(before, size, align, off as nat) && after == mark(
            before,
            off as nat,
            size,
        ),
        Err(e) => e == AllocError::Exhausted && no_room(before, size, align) && after == before,
    }
}

/// What a release of `size` words at `off` does to the groups: it clears
/// them, or, where `off` lies past the arena, fails with `OutOfRange` and
/// changes nothing.
pub open spec fn free_outcome(
    before: Seq<u64>,
    off: nat,
    size: nat,
    r: Result<(), AllocError>,
    after: Seq<u64>,
) -> bool {
    if off / 64 < before.len() {
        r == Ok::<(), AllocError>(()) && after == clear(before, off, size)
    } else {
        r == Err::<(), AllocError>(AllocError::OutOfRange) && after == before
    }
}

/// The word `range_mask(p, len)`.
fn group_mask(p: usize, len: usize) -> (m: u64)
    requires
        p + len <= GROUP_BITS,
    ensures
        m == range_mask(p as nat, len as nat),
{
    if len >= GROUP_BITS {
        u64::MAX
    } else if len == 0 {
        let q = p as u64;
        assert(((((1u64 << 0u64) - 1u64) as u64) << q) == 0u64) by (bit_vector)
            requires
                q <= 64,
        ;
        0u64
    } else {
        let l = len as u64;
        assert((1u64 << l) >= 1u64) by (bit_vector)
            requires
                l < 64,
        ;
        ((1u64 << l) - 1u64) << (p as u64)
    }
}

/// The occupancy bitmap of a fixed arena: one 64-bit group per 64 words.
pub struct StaticAllocator {
    used_bitmap: Vec<u64>,
}

impl View for StaticAllocator {
    type V = Seq<u64>;

    /// The occupancy groups, in arena order.
    closed spec fn view(&self) -> Seq<u64> {
        self.used_bitmap@
    }
}

impl StaticAllocator {
    /// The arena has its full set of groups.
    pub open spec fn wf(&self) -> bool {
        self@.len() == GROUPS
    }

    /// An arena whose words are all free.
    pub fn new() -> (r: StaticAllocator)
        ensures
            r@ == Seq::new(GROUPS as nat, |g: int| 0u64),
    {
        let mut used_bitmap: Vec<u64> = Vec::new();
        while used_bitmap.len() < GROUPS
            invariant
                used_bitmap@.len() <= GROUPS,
                forall|g: int| 0 <= g < used_bitmap@.len() ==> used_bitmap@[g] == 0u64,
            decreases GROUPS - used_bitmap@.len(),
        {
            used_bitmap.push(0u64);
        }
        let r = StaticAllocator { used_bitmap };
        assert(r@ =~= Seq::new(GROUPS as nat, |g: int| 0u64));
        r
    }

    /// The occupancy word of group `idx`, if the arena has that group.
    pub fn group(&self, idx: usize) -> (r: Option<u64>)
        ensures
            r == (if idx < self@.len() {
                Some(self@[idx as int])
            } else {
                None::<u64>
            }),
    {
        if idx < self.used_bitmap.len() {
            Some(self.used_bitmap[idx])
        } else {
            None
        }
    }

    /// Footprint and alignment, in words, of one value of `T`: both are its
    /// size rounded up to whole words.
    pub fn round_bitmap_size_align<T>() -> (r: (usize, usize))
        ensures
            r.0 as nat == obj_words::<T>(),
            r.1 as nat == obj_words::<T>(),
    {
        let t_size = core::mem::size_of::<T>();
        let size = words(t_size);
        let align = words(t_size);
        (size, align)
    }

    /// Footprint in words of `n` values of `T` laid out together, and their
    /// alignment, which is that of a single value.
    pub fn round_bitmap_size_align_mult<T>(n: usize) -> (r: (usize, usize))
        requires
            n * vstd::layout::size_of::<T>() <= usize::MAX,
        ensures
            r.0 as nat == array_words::<T>(n as nat),
            r.1 as nat == obj_words::<T>(),
    {
        let t_size = core::mem::size_of::<T>();
        let size = words(n * t_size);
        let align = words(t_size);
        (size, align)
    }

    /// Reserves room for one value of `T` and returns its offset in words.
    pub fn alloc_obj<T>(&mut self) -> (r: Result<usize, AllocError>)
        requires
            old(self).wf(),
            vstd::layout::size_of::<T>() > 0,
        ensures
            alloc_outcome(old(self)@, obj_words::<T>(), obj_words::<T>(), r, final(self)@),
    {
        let (size, align) = Self::round_bitmap_size_align::<T>();
        self.alloc_words(size, align)
    }

    /// Releases the value of `T` at offset `off`.
    pub fn dealloc_obj<T>(&mut self, off: usize) -> (r: Result<(), AllocError>)
        ensures
            free_outcome(old(self)@, off as nat, obj_words::<T>(), r, final(self)@),
    {
        let (size, _) = Self::round_bitmap_size_align::<T>();
        self.free_words(off, size)
    }

    /// Reserves room for `n` values of `T` laid out together and returns
    /// the offset of the first in words.
    pub fn alloc_obj_mult<T>(&mut self, n: usize) -> (r: Result<usize, AllocError>)
        requires
            old(self).wf(),
            vstd::layout::size_of::<T>() > 0,
        ensures
            alloc_outcome(
                old(self)@,
                array_words::<T>(n as nat),
                obj_words::<T>(),
                r,
                final(self)@,
            ),
    {
        let t_size = core::mem::size_of::<T>();
        if n > usize::MAX / t_size {
            proof {
                lemma_overflow_too_long(n, t_size);
            }
            return Err(AllocError::Exhausted);
        }
        proof {
            vstd::arithmetic::div_mod::lemma_fundamental_div_mod(usize::MAX as int, t_size as int);
            assert(n * t_size <= usize::MAX) by (nonlinear_arith)
                requires
                    n <= usize::MAX / t_size,
                    usize::MAX == t_size * (usize::MAX / t_size) + usize::MAX % t_size,
                    usize::MAX % t_size >= 0,
                    t_size > 0,
            ;
        }
        let (size, align) = Self::round_bitmap_size_align_mult::<T>(n);
        self.alloc_words(size, align)
    }

    /// Releases the `n` values of `T` at offset `off`.
    pub fn dealloc_obj_mult<T>(&mut self, off: usize, n: usize) -> (r: Result<(), AllocError>)
        ensures
            free_outcome(old(self)@, off as nat, array_words::<T>(n as nat), r, final(self)@),
    {
        let t_size = core::mem::size_of::<T>();
        if t_size > 0 && n > usize::MAX / t_size {
            proof {
                lemma_overflow_too_long(n, t_size);
                assert(clear(old(self)@, off as nat, GROUP_BITS as nat) == clear(
                    old(self)@,
                    off as nat,
                    array_words::<T>(n as nat),
                ));
            }
            return self.free_words(off, GROUP_BITS);
        }
        proof {
            if t_size > 0 {
                vstd::arithmetic::div_mod::lemma_fundamental_div_mod(
                    usize::MAX as int,
                    t_size as int,
                );
                assert(n * t_size <= usize::MAX) by (nonlinear_arith)
                    requires
                        n <= usize::MAX / t_size,
                        usize::MAX == t_size * (usize::MAX / t_size) + usize::MAX % t_size,
                        usize::MAX % t_size >= 0,
                        t_size > 0,
                ;
            }
        }
        let (size, _) = Self::round_bitmap_size_align_mult::<T>(n);
        self.free_words(off, size)
    }

    /// Marks the first fit of `size` words aligned to `align` words and
    /// returns its offset in words.
    pub(crate) fn alloc_words(&mut self, size: usize, align: usize) -> (r: Result<usize, AllocError>)
        requires
            old(self).wf(),
            align > 0,
        ensures
            alloc_outcome(old(self)@, size as nat, align as nat, r, final(self)@),
    {
        let mut idx: usize = 0;
        while idx < self.used_bitmap.len()
            invariant
                align > 0,
                self.used_bitmap@.len() == GROUPS,
                self@ == old(self)@,
                forall|g: int| 0 <= g < idx ==> no_fit(#[trigger] self@[g], size as nat, align as nat),
            decreases GROUPS - idx,
        {
            let bm = self.used_bitmap[idx];
            match Self::find_free_bitrange(bm, size, align) {
                Ok(bit0) => {
                    let mask = group_mask(bit0, size);
                    self.used_bitmap.set(idx, bm | mask);
                    let off = idx * GROUP_BITS + bit0;
                    proof {
                        vstd::arithmetic::div_mod::lemma_fundamental_div_mod_converse(
                            off as int,
                            64,
                            idx as int,
                            bit0 as int,
                        );
                        assert(self@ =~= mark(old(self)@, off as nat, size as nat));
                    }
                    return Ok(off);
                },
                Err(()) => {},
            }
            idx = idx + 1;
        }
        Err(AllocError::Exhausted)
    }

    /// Clears the `size` words at offset `off`, cut at the end of their
    /// group.
    pub(crate) fn free_words(&mut self, off: usize, size: usize) -> (r: Result<(), AllocError>)
        ensures
            free_outcome(old(self)@, off as nat, size as nat, r, final(self)@),
    {
        let idx = off / GROUP_BITS;
        let bit0 = off % GROUP_BITS;
        if idx < self.used_bitmap.len() {
            let len = if size > GROUP_BITS - bit0 {
                GROUP_BITS - bit0
            } else {
                size
            };
            let mask = group_mask(bit0, len);
            let bm = self.used_bitmap[idx];
            self.used_bitmap.set(idx, bm & !mask);
            assert(self@ =~= clear(old(self)@, off as nat, size as nat));
            Ok(())
        } else {
            Err(AllocError::OutOfRange)
        }
    }

    /// First-fit search of one group: the lowest position where `size`
    /// words aligned to `align` words are free, scanning the free runs of
    /// `bm` in ascending order; `Err(())` when no position fits.
    pub fn find_free_bitrange(bm: u64, size: usize, align: usize) -> (r: Result<usize, ()>)
        requires
            align > 0,
        ensures
            search_outcome(bm, size as nat, align as nat, r),
    {
        let mut first_zero = Self::find_next_zero(bm, 0);
        while first_zero < GROUP_BITS
            invariant
                align > 0,
                first_zero <= GROUP_BITS,
                first_zero < GROUP_BITS ==> !bit(bm, first_zero as nat),
                forall|q: nat| q < first_zero ==> !#[trigger] fits(bm, size as nat, align as nat, q),
            decreases GROUP_BITS - first_zero,
        {
            let next_one = Self::find_next_one(bm, first_zero);
            let rem = first_zero % align;
            proof {
                lemma_align_up(first_zero as nat, align as nat);
                if align > first_zero {
                    vstd::arithmetic::div_mod::lemma_small_mod(first_zero as nat, align as nat);
                }
            }
            let aligned_first_zero = if rem == 0 {
                first_zero
            } else {
                first_zero - rem + align
            };
            assert(aligned_first_zero == align_up(first_zero as nat, align as nat));
            if aligned_first_zero < next_one && next_one - aligned_first_zero >= size {
                assert(fits(bm, size as nat, align as nat, aligned_first_zero as nat));
                assert forall|q: nat| q < aligned_first_zero implies !#[trigger] fits(
                    bm,
                    size as nat,
                    align as nat,
                    q,
                ) by {
                    if q >= first_zero {
                        assert(q % (align as nat) != 0);
                    }
                }
                return Ok(aligned_first_zero);
            }
            let next_zero = Self::find_next_zero(bm, next_one);
            assert forall|q: nat| q < next_zero implies !#[trigger] fits(
                bm,
                size as nat,
                align as nat,
                q,
            ) by {
                if first_zero <= q < next_one && q % (align as nat) == 0 {
                    assert(q >= aligned_first_zero);
                    if next_one < GROUP_BITS {
                        assert(bit(bm, next_one as nat));
                    }
                } else if next_one <= q < next_zero {
                    assert(bit(bm, q));
                }
            }
            first_zero = next_zero;
        }
        Err(())
    }

    /// The first clear bit of `bm` at or after `bit_start`, or 64 when every
    /// bit from there to the end of the group is set.
    pub fn find_next_zero(bm: u64, bit_start: usize) -> (r: usize)
        ensures
            r <= GROUP_BITS,
            bit_start <= GROUP_BITS ==> bit_start <= r,
            bit_start >= GROUP_BITS ==> r == GROUP_BITS,
            range_used(bm, bit_start as nat, r as nat),
            r < GROUP_BITS ==> !bit(bm, r as nat),
    {
        let mut i: usize = bit_start;
        while i < GROUP_BITS
            invariant
                bit_start <= i,
                range_used(bm, bit_start as nat, i as nat),
            decreases GROUP_BITS - i,
        {
            if (bm >> (i as u64)) & 1u64 == 0u64 {
                return i;
            }
            i = i + 1;
        }
        GROUP_BITS
    }

    /// The first set bit of `bm` at or after `bit_start`, or 64 when every
    /// bit from there to the end of the group is clear.
    pub fn find_next_one(bm: u64, bit_start: usize) -> (r: usize)
        ensures
            r <= GROUP_BITS,
            bit_start <= GROUP_BITS ==> bit_start <= r,
            bit_start >= GROUP_BITS ==> r == GROUP_BITS,
            range_free(bm, bit_start as nat, r as nat),
            r < GROUP_BITS ==> bit(bm, r as nat),
    {
        let mut i: usize = bit_start;
        while i < GROUP_BITS
            invariant
                bit_start <= i,
                range_free(bm, bit_start as nat, i as nat),
            decreases GROUP_BITS - i,
        {
            if (bm >> (i as u64)) & 1u64 != 0u64 {
                return i;
            }
            i = i + 1;
        }
        GROUP_BITS
    }
}

/// Reserves room for one value of `T` in `arena`; see
/// [`StaticAllocator::alloc_obj`].
pub fn static_alloc<T>(arena: &mut StaticAllocator) -> (r: Result<usize, AllocError>)
    requires
        old(arena).wf(),
        vstd::layout::size_of::<T>() > 0,
    ensures
        alloc_outcome(old(arena)@, obj_words::<T>(), obj_words::<T>(), r, final(arena)@),
{
    arena.alloc_obj::<T>()
}

/// Releases the value of `T` at offset `off` of `arena`; see
/// [`StaticAllocator::dealloc_obj`].
pub fn static_dealloc<T>(arena: &mut StaticAllocator, off: usize) -> (r: Result<(), AllocError>)
    ensures
        free_outcome(old(arena)@, off as nat, obj_words::<T>(), r, final(arena)@),
{
    arena.dealloc_obj::<T>(off)
}

/// Reserves room for `n` values of `T` in `arena`; see
/// [`StaticAllocator::alloc_obj_mult`].
pub fn static_alloc_mult<T>(arena: &mut StaticAllocator, n: usize) -> (r: Result<usize, AllocError>)
    requires
        old(arena).wf(),
        vstd::layout::size_of::<T>() > 0,
    ensures
        alloc_outcome(old(arena)@, array_words::<T>(n as nat), obj_words::<T>(), r, final(arena)@),
{
    arena.alloc_obj_mult::<T>(n)
}

/// Releases the `n` values of `T` at offset `off` of `arena`; see
/// [`StaticAllocator::dealloc_obj_mult`].
pub fn static_dealloc_mult<T>(arena: &mut StaticAllocator, off: usize, n: usize) -> (r: Result<
    (),
    AllocError,
>)
    ensures
        free_outcome(old(arena)@, off as nat, array_words::<T>(n as nat), r, final(arena)@),
{
    arena.dealloc_obj_mult::<T>(off, n)
}

proof fn lemma_set_then_clear_bv(x: u64, m: u64)
    by (bit_vector)
    requires
        x & m == 0u64,
    ensures
        (x | m) & !m == x,
{
}

proof fn lemma_or_keeps_bit_bv(x: u64, m: u64, i: u64)
    by (bit_vector)
    requires
        i < 64,
        (m >> i) & 1u64 != 0u64,
    ensures
        ((x | m) >> i) & 1u64 != 0u64,
{
}

proof fn lemma_clear_first_of_two_bv(x: u64, m1: u64, m2: u64)
    by (bit_vector)
    requires
        x & m1 == 0u64,
        (x | m1) & m2 == 0u64,
    ensures
        ((x | m1) | m2) & !m1 == x | m2,
{
}

/// A successful allocation occupies bits that were all free, inside one
/// group.
proof fn lemma_placed_disjoint(before: Seq<u64>, size: nat, align: nat, off: nat)
    requires
        placed_at(before, size, align, off),
    ensures
        off % 64 + size <= 64,
        before[(off / 64) as int] & range_mask(off % 64, size) == 0,
{
    lemma_free_range_disjoint(before[(off / 64) as int], off % 64, size);
}

/// Allocating and then releasing the same run, with the same size, gives
/// back the bitmap as it was before the allocation.
pub proof fn lemma_alloc_free_round_trip(
    before: Seq<u64>,
    size: nat,
    align: nat,
    off: usize,
    mid: Seq<u64>,
    r: Result<(), AllocError>,
    after: Seq<u64>,
)
    requires
        alloc_outcome(before, size, align, Ok(off), mid),
        free_outcome(mid, off as nat, size, r, after),
    ensures
        r == Ok::<(), AllocError>(()),
        after == before,
{
    let g = (off / 64) as int;
    let m = range_mask(off as nat % 64, size);
    lemma_placed_disjoint(before, size, align, off as nat);
    lemma_set_then_clear_bv(before[g], m);
    assert(after =~= before);
}

/// Releasing one allocation leaves a later, independent allocation intact:
/// after allocating a first run, then a second, then releasing the first,
/// the bitmap is the one that allocating only the second would have given,
/// and every bit of the second run is still set.
pub proof fn lemma_free_keeps_other(
    g0: Seq<u64>,
    size1: nat,
    align1: nat,
    off1: usize,
    g1: Seq<u64>,
    size2: nat,
    align2: nat,
    off2: usize,
    g2: Seq<u64>,
    r: Result<(), AllocError>,
    g3: Seq<u64>,
)
    requires
        alloc_outcome(g0, size1, align1, Ok(off1), g1),
        alloc_outcome(g1, size2, align2, Ok(off2), g2),
        free_outcome(g2, off1 as nat, size1, r, g3),
    ensures
        r == Ok::<(), AllocError>(()),
        g3 == mark(g0, off2 as nat, size2),
        forall|i: nat|
            off2 as nat % 64 <= i < off2 as nat % 64 + size2 ==> #[trigger] bit(
                g3[(off2 / 64) as int],
                i,
            ),
{
    let b = (off1 / 64) as int;
    let c = (off2 / 64) as int;
    let m1 = range_mask(off1 as nat % 64, size1);
    let m2 = range_mask(off2 as nat % 64, size2);
    lemma_placed_disjoint(g0, size1, align1, off1 as nat);
    lemma_placed_disjoint(g1, size2, align2, off2 as nat);
    if b == c {
        lemma_clear_first_of_two_bv(g0[b], m1, m2);
    } else {
        lemma_set_then_clear_bv(g0[b], m1);
        lemma_set_then_clear_bv(g0[c], m2);
    }
    assert(g3 =~= mark(g0, off2 as nat, size2));
    assert forall|i: nat| off2 as nat % 64 <= i < off2 as nat % 64 + size2 implies #[trigger] bit(
        g3[c],
        i,
    ) by {
        lemma_range_mask_bit(off2 as nat % 64, size2, i);
        lemma_or_keeps_bit_bv(g0[c], m2, i as u64);
    }
}

} // verus!
