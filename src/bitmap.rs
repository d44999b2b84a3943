//! Bit-level model of one occupancy group: a 64-bit word whose bit `i` is set
//! when word `i` of the group is in use.

use vstd::prelude::*;

verus! {

/// Number of words that one occupancy group tracks.
pub const GROUP_BITS: usize = 64;

/// Bit `i` of `bm` is set; positions past the group are never set.
pub open spec fn bit(bm: u64, i: nat) -> bool {
    i < 64 && (bm >> (i as u64)) & 1u64 != 0u64
}

/// Every bit in `[start, end)` is clear.
pub open spec fn range_free(bm: u64, start: nat, end: nat) -> bool {
    forall|i: nat| start <= i < end ==> !#[trigger] bit(bm, i)
}

/// Every bit in `[start, end)` is set.
pub open spec fn range_used(bm: u64, start: nat, end: nat) -> bool {
    forall|i: nat| start <= i < end ==> #[trigger] bit(bm, i)
}

/// A request for `size` words aligned to `align` words can start at `p`:
/// `p` is a multiple of `align`, is itself a free word, and the `size`
/// words from `p` are free and stay inside the group.
pub open spec fn fits(bm: u64, size: nat, align: nat, p: nat) -> bool {
    &&& p % align == 0
    &&& p < 64
    &&& p + size <= 64
    &&& !bit(bm, p)
    &&& range_free(bm, p, p + size)
}

/// `p` is the lowest position of the group where the request fits.
pub open spec fn is_first_fit(bm: u64, size: nat, align: nat, p: nat) -> bool {
    fits(bm, size, align, p) && forall|q: nat| q < p ==> !#[trigger] fits(bm, size, align, q)
}

/// The request fits nowhere in the group.
pub open spec fn no_fit(bm: u64, size: nat, align: nat) -> bool {
    forall|q: nat| !#[trigger] fits(bm, size, align, q)
}

/// What a first-fit search of one group returns: the first fit, or
/// `Err(())` exactly when the request fits nowhere.
pub open spec fn search_outcome(bm: u64, size: nat, align: nat, r: Result<usize, ()>) -> bool {
    match r {
        Ok(p) => is_first_fit(bm, size, align, p as nat),
        Err(()) => no_fit(bm, size, align),
    }
}

/// A search of one group is sound and complete: for a request of at least
/// one word, a returned position is a multiple of `align` whose `size`
/// words lie inside the group and are all free, and the search fails only
/// where no such position exists.
pub proof fn lemma_search_sound_complete(bm: u64, size: nat, align: nat, r: Result<usize, ()>)
    requires
        size >= 1,
        search_outcome(bm, size, align, r),
    ensures
        r matches Ok(p) ==> (p as nat) % align == 0 && p + size <= 64 && range_free(
            bm,
            p as nat,
            (p + size) as nat,
        ),
        r is Err <==> !exists|p: nat|
            #![trigger range_free(bm, p, p + size)]
            p % align == 0 && p + size <= 64 && range_free(bm, p, p + size),
{
    if r is Err {
        assert forall|p: nat| !(p % align == 0 && p + size <= 64 && #[trigger] range_free(bm, p, p + size)) by {
            if p % align == 0 && p + size <= 64 && range_free(bm, p, p + size) {
                assert(!bit(bm, p));
                assert(fits(bm, size, align, p));
            }
        }
    } else {
        let p = r->Ok_0 as nat;
        assert(fits(bm, size, align, p));
    }
}

/// A search is deterministic: two searches of the same group for the same
/// request return the same result.
pub proof fn lemma_search_deterministic(
    bm: u64,
    size: nat,
    align: nat,
    r1: Result<usize, ()>,
    r2: Result<usize, ()>,
)
    requires
        search_outcome(bm, size, align, r1),
        search_outcome(bm, size, align, r2),
    ensures
        r1 == r2,
{
    if r1 is Ok && r2 is Ok {
        let p1 = r1->Ok_0;
        let p2 = r2->Ok_0;
        if p1 < p2 {
            assert(!fits(bm, size, align, p1 as nat));
        } else if p2 < p1 {
            assert(!fits(bm, size, align, p2 as nat));
        }
    } else if r1 is Ok {
        assert(!fits(bm, size, align, r1->Ok_0 as nat));
    } else if r2 is Ok {
        assert(!fits(bm, size, align, r2->Ok_0 as nat));
    } else {
        assert(r1->Err_0 == r2->Err_0);
    }
}

/// The least multiple of `align` that is at least `z`.
pub open spec fn align_up(z: nat, align: nat) -> nat
    recommends
        align > 0,
{
    if z % align == 0 {
        z
    } else {
        (z - z % align + align) as nat
    }
}

/// `align_up` is a multiple of `align`, no smaller than `z`, and no multiple
/// of `align` lies between them.
pub proof fn lemma_align_up(z: nat, align: nat)
    requires
        align > 0,
    ensures
        align_up(z, align) % align == 0,
        z <= align_up(z, align),
        z < align ==> align_up(z, align) == (if z == 0 { 0 } else { align }),
        forall|q: nat| z <= q < align_up(z, align) ==> #[trigger] (q % align) != 0,
{
    let k = z / align;
    let r = z % align;
    vstd::arithmetic::div_mod::lemma_fundamental_div_mod(z as int, align as int);
    assert(z == align * k + r);
    if z < align {
        vstd::arithmetic::div_mod::lemma_small_mod(z, align);
    }
    if r != 0 {
        assert(align_up(z, align) == align * (k + 1)) by (nonlinear_arith)
            requires
                z == align * k + r,
                align_up(z, align) == z - r + align,
        ;
        vstd::arithmetic::div_mod::lemma_mod_multiples_basic((k + 1) as int, align as int);
        assert((align * (k + 1)) % align == 0) by {
            assert(align * (k + 1) == (k + 1) * align) by (nonlinear_arith);
        }
        assert forall|q: nat| z <= q < align_up(z, align) implies #[trigger] (q % align) != 0 by {
            if q % align == 0 {
                vstd::arithmetic::div_mod::lemma_fundamental_div_mod(q as int, align as int);
                let m = q / align;
                assert(q == align * m);
                assert(false) by (nonlinear_arith)
                    requires
                        q == align * m,
                        align * k < q,
                        q < align * (k + 1),
                        align > 0,
                ;
            }
        }
    }
}

/// The group word with exactly the bits `[p, p + len)` set, for
/// `p + len <= 64`.
pub open spec fn range_mask(p: nat, len: nat) -> u64 {
    if len >= 64 {
        u64::MAX
    } else {
        (((1u64 << (len as u64)) - 1u64) as u64) << (p as u64)
    }
}

proof fn lemma_mask_bit_bv(p: u64, len: u64, i: u64)
    by (bit_vector)
    requires
        p + len <= 64,
        len < 64,
        i < 64,
    ensures
        (((((1u64 << len) - 1u64) as u64) << p) >> i) & 1u64 != 0u64 <==> (p <= i && i < p + len),
{
}

proof fn lemma_full_mask_bit_bv(i: u64)
    by (bit_vector)
    requires
        i < 64,
    ensures
        (0xffff_ffff_ffff_ffffu64 >> i) & 1u64 != 0u64,
{
}

/// Bit `i` of `range_mask(p, len)` is set exactly when `p <= i < p + len`.
pub proof fn lemma_range_mask_bit(p: nat, len: nat, i: nat)
    requires
        p + len <= 64,
    ensures
        bit(range_mask(p, len), i) <==> (p <= i < p + len),
{
    if i < 64 {
        if len < 64 {
            lemma_mask_bit_bv(p as u64, len as u64, i as u64);
        } else {
            lemma_full_mask_bit_bv(i as u64);
        }
    }
}

proof fn lemma_mask_step_bv(p: u64, len: u64)
    by (bit_vector)
    requires
        p + len < 64,
    ensures
        len + 1 < 64 ==> ((((1u64 << (len + 1)) - 1u64) as u64) << p) == (((((1u64 << len)
            - 1u64) as u64) << p) | (1u64 << (p + len))),
        len + 1 == 64 ==> 0xffff_ffff_ffff_ffffu64 == (((((1u64 << len) - 1u64) as u64) << p) | (
        1u64 << (p + len))),
{
}

proof fn lemma_empty_mask_bv(p: u64)
    by (bit_vector)
    requires
        p < 64,
    ensures
        ((((1u64 << 0u64) - 1u64) as u64) << p) == 0u64,
{
}

proof fn lemma_clear_bit_bv(bm: u64, m: u64, i: u64)
    by (bit_vector)
    requires
        i < 64,
        bm & m == 0u64,
        (bm >> i) & 1u64 == 0u64,
    ensures
        bm & (m | (1u64 << i)) == 0u64,
{
}

/// A free range shares no bit with the word: `bm & range_mask(p, len) == 0`.
pub proof fn lemma_free_range_disjoint(bm: u64, p: nat, len: nat)
    requires
        p + len <= 64,
        range_free(bm, p, p + len),
    ensures
        bm & range_mask(p, len) == 0,
    decreases len,
{
    if len == 0 {
        if p < 64 {
            lemma_empty_mask_bv(p as u64);
        } else {
            assert(((((1u64 << 0u64) - 1u64) as u64) << 64u64) == 0u64) by (bit_vector);
        }
        assert(bm & 0u64 == 0u64) by (bit_vector);
    } else {
        let k = (len - 1) as nat;
        lemma_free_range_disjoint(bm, p, k);
        lemma_mask_step_bv(p as u64, k as u64);
        assert(!bit(bm, p + k));
        lemma_clear_bit_bv(bm, range_mask(p, k), (p + k) as u64);
    }
}

} // verus!
