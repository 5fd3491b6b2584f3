//! Power-of-two alignment arithmetic.
use vstd::prelude::*;
use vstd::arithmetic::div_mod::{lemma_fundamental_div_mod, lemma_mod_multiples_basic};
use vstd::arithmetic::power2::pow2;
use vstd::bits::{lemma_usize_low_bits_mask_is_mod, low_bits_mask};

verus! {

/// Whether `al` is a power of two that a `usize` can hold.
pub open spec fn is_pow2(al: int) -> bool {
    exists|k: nat| k < usize::BITS && pow2(k) == al
}

/// The least multiple of `al` that is at least `a`.
pub open spec fn round_up(a: int, al: int) -> int {
    (a + al - 1) - (a + al - 1) % al
}

/// The greatest multiple of `al` that is at most `a`.
pub open spec fn round_down(a: int, al: int) -> int {
    a - a % al
}

/// Rounding up gives a multiple of `al` in `[a, a + al)`.
pub proof fn lemma_round_up(a: int, al: int)
    requires
        al > 0,
    ensures
        round_up(a, al) % al == 0,
        a <= round_up(a, al) < a + al,
        a % al == 0 ==> round_up(a, al) == a,
{
    let x = a + al - 1;
    lemma_fundamental_div_mod(x, al);
    lemma_mod_multiples_basic(x / al, al);
    assert(round_up(a, al) == (x / al) * al) by (nonlinear_arith)
        requires
            x == al * (x / al) + x % al,
            round_up(a, al) == x - x % al,
    ;
    if a % al == 0 {
        lemma_fundamental_div_mod(a, al);
        assert(x % al == al - 1) by {
            vstd::arithmetic::div_mod::lemma_mod_adds(a, al - 1, al);
            vstd::arithmetic::div_mod::lemma_small_mod((al - 1) as nat, al as nat);
        }
    }
}

/// Rounding up a value that is not a multiple of `al` adds what is missing
/// to the next multiple.
pub proof fn lemma_round_up_by_rem(a: int, al: int)
    requires
        al > 0,
        a % al != 0,
    ensures
        round_up(a, al) == a + al - a % al,
{
    let q = a / al;
    let r = a % al;
    lemma_fundamental_div_mod(a, al);
    assert(a + al - 1 == (q + 1) * al + (r - 1)) by (nonlinear_arith)
        requires
            a == al * q + r,
    ;
    vstd::arithmetic::div_mod::lemma_fundamental_div_mod_converse(a + al - 1, al, q + 1, r - 1);
}

/// Rounding down gives a multiple of `al` in `(a - al, a]`.
pub proof fn lemma_round_down(a: int, al: int)
    requires
        al > 0,
    ensures
        round_down(a, al) % al == 0,
        a - al < round_down(a, al) <= a,
{
    lemma_fundamental_div_mod(a, al);
    lemma_mod_multiples_basic(a / al, al);
    assert(round_down(a, al) == (a / al) * al) by (nonlinear_arith)
        requires
            a == al * (a / al) + a % al,
            round_down(a, al) == a - a % al,
    ;
}

proof fn lemma_mask_rounds_down(x: usize, k: nat)
    requires
        k < usize::BITS,
    ensures
        x & !((pow2(k) - 1) as usize) == x - (x as int) % (pow2(k) as int),
{
    vstd::bits::lemma_usize_pow2_no_overflow(k);
    lemma_usize_low_bits_mask_is_mod(x, k);
    let m = (pow2(k) - 1) as usize;
    assert(low_bits_mask(k) as usize == m);
    assert(x & !m == x - (x & m)) by (bit_vector);
}

/// Rounds `addr` up to a multiple of the power of two `align`.
pub fn align_up(addr: usize, align: usize) -> (r: usize)
    requires
        is_pow2(align as int),
        addr + align - 1 <= usize::MAX,
    ensures
        r == round_up(addr as int, align as int),
{
    proof {
        let k = choose|k: nat| k < usize::BITS && pow2(k) == align;
        vstd::arithmetic::power2::lemma_pow2_pos(k);
        lemma_mask_rounds_down((addr + align - 1) as usize, k);
    }
    (addr + (align - 1)) & !(align - 1)
}

/// Rounds `addr` down to a multiple of the power of two `align`.
pub fn align_down(addr: usize, align: usize) -> (r: usize)
    requires
        is_pow2(align as int),
    ensures
        r == round_down(addr as int, align as int),
{
    proof {
        let k = choose|k: nat| k < usize::BITS && pow2(k) == align;
        vstd::arithmetic::power2::lemma_pow2_pos(k);
        lemma_mask_rounds_down(addr, k);
    }
    addr & !(align - 1)
}

} // verus!
