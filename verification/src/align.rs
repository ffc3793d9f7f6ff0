//! Rounding of sizes and addresses to a power of two.
use vstd::arithmetic::power::pow;
use vstd::arithmetic::power2::{is_pow2, is_pow2_equiv, pow2};
use vstd::prelude::*;

verus! {

/// The greatest multiple of `align` that is at most `n`.
pub open spec fn align_down(n: int, align: int) -> int {
    n - n % align
}

/// The least multiple of `align` that is at least `n`.
pub open spec fn align_up(n: int, align: int) -> int {
    align_down(n + align - 1, align)
}

/// The greater of two numbers.
pub open spec fn larger(a: int, b: int) -> int {
    if a >= b {
        a
    } else {
        b
    }
}

/// `align_down` gives the one multiple of `align` in the last `align` numbers up to `n`.
pub proof fn lemma_align_down(n: int, align: int)
    requires
        align > 0,
    ensures
        align_down(n, align) % align == 0,
        n - align < align_down(n, align) <= n,
        0 <= n ==> 0 <= align_down(n, align),
        n % align == 0 ==> align_down(n, align) == n,
{
    let q = n / align;
    vstd::arithmetic::div_mod::lemma_fundamental_div_mod(n, align);
    vstd::arithmetic::div_mod::lemma_mod_bound(n, align);
    assert(align_down(n, align) == q * align) by (nonlinear_arith)
        requires
            n == align * q + n % align,
            align_down(n, align) == n - n % align,
    ;
    vstd::arithmetic::div_mod::lemma_mod_multiples_basic(q, align);
    if 0 <= n {
        vstd::arithmetic::div_mod::lemma_div_pos_is_pos(n, align);
        assert(q * align >= 0) by (nonlinear_arith)
            requires
                q >= 0,
                align > 0,
        ;
    }
}

/// `align_up` gives the one multiple of `align` in the first `align` numbers from `n`.
pub proof fn lemma_align_up(n: int, align: int)
    requires
        align > 0,
    ensures
        align_up(n, align) % align == 0,
        n <= align_up(n, align) < n + align,
        n % align == 0 ==> align_up(n, align) == n,
{
    lemma_align_down(n + align - 1, align);
    if n % align == 0 {
        lemma_multiples_apart(align_up(n, align), n, align);
    }
}

/// Two multiples of `align` that are less than `align` apart are the same.
pub proof fn lemma_multiples_apart(a: int, b: int, align: int)
    requires
        align > 0,
        a % align == 0,
        b % align == 0,
        b <= a < b + align,
    ensures
        a == b,
{
    vstd::arithmetic::div_mod::lemma_fundamental_div_mod(a, align);
    vstd::arithmetic::div_mod::lemma_fundamental_div_mod(b, align);
    let x = a / align;
    let y = b / align;
    assert(x == y) by (nonlinear_arith)
        requires
            a == align * x,
            b == align * y,
            b <= a < b + align,
            align > 0,
    ;
}

/// Rounding down never passes a multiple of `align`.
pub proof fn lemma_align_down_floor(n: int, floor: int, align: int)
    requires
        align > 0,
        floor % align == 0,
        floor <= n,
    ensures
        floor <= align_down(n, align),
{
    lemma_align_down(n, align);
    let d = align_down(n, align);
    if d < floor {
        lemma_multiples_apart(floor, d, align);
    }
}

/// A multiple of a power of two is a multiple of every smaller one.
pub proof fn lemma_coarser_multiple(n: int, coarse: int, fine: int)
    requires
        is_pow2(coarse),
        is_pow2(fine),
        fine <= coarse,
        n % coarse == 0,
    ensures
        n % fine == 0,
        coarse % fine == 0,
    decreases coarse,
{
    reveal(is_pow2);
    if fine == coarse {
        vstd::arithmetic::div_mod::lemma_mod_self_0(fine);
    } else {
        let half = coarse / 2;
        assert(coarse == 2 * half);
        let q = n / coarse;
        vstd::arithmetic::div_mod::lemma_fundamental_div_mod(n, coarse);
        assert(n == half * (2 * q)) by (nonlinear_arith)
            requires
                n == coarse * q,
                coarse == 2 * half,
        ;
        vstd::arithmetic::div_mod::lemma_mod_multiples_basic(2 * q, half);
        assert(n == (2 * q) * half) by (nonlinear_arith)
            requires
                n == half * (2 * q),
        ;
        lemma_half_at_least(coarse, fine);
        lemma_coarser_multiple(n, half, fine);
        let r = half / fine;
        vstd::arithmetic::div_mod::lemma_fundamental_div_mod(half, fine);
        assert(coarse == (2 * r) * fine) by (nonlinear_arith)
            requires
                coarse == 2 * half,
                half == fine * r,
        ;
        vstd::arithmetic::div_mod::lemma_mod_multiples_basic(2 * r, fine);
    }
}

/// Half of a power of two is at least every smaller power of two.
pub proof fn lemma_half_at_least(coarse: int, fine: int)
    requires
        is_pow2(coarse),
        is_pow2(fine),
        fine < coarse,
    ensures
        fine <= coarse / 2,
    decreases coarse,
{
    reveal(is_pow2);
    if fine > 1 {
        lemma_half_at_least(coarse / 2, fine / 2);
    }
}

/// For a power of two `align`, the bits below `align` are the remainder and the bits above
/// are what rounding down keeps.
proof fn lemma_mask(n: usize, align: usize, mask: usize)
    requires
        is_pow2(align as int),
        mask == align - 1,
    ensures
        n & mask == n % align,
        n & !mask == align_down(n as int, align as int),
{
    is_pow2_equiv(align as int);
    let e = choose|e: nat| pow(2, e) == align as int;
    assert(pow2(e) == align);
    if e >= usize::BITS {
        vstd::layout::unsigned_int_max_values();
        if e > usize::BITS {
            vstd::arithmetic::power2::lemma_pow2_strictly_increases(usize::BITS as nat, e);
        }
        assert(false);
    }
    vstd::bits::lemma_usize_low_bits_mask_is_mod(n, e);
    assert(vstd::bits::low_bits_mask(e) == mask);
    assert(n & !mask == n - (n & mask)) by (bit_vector);
}

/// A number is a power of two just when it shares no bit with its predecessor and is not zero.
proof fn lemma_power_of_two_test(n: usize, m: usize)
    requires
        n > 0,
        m == n - 1,
    ensures
        n & m == 0 <==> is_pow2(n as int),
    decreases n,
{
    reveal(is_pow2);
    if n == 1 {
        assert(1usize & 0usize == 0usize) by (bit_vector);
    } else {
        let n2 = n / 2;
        let m2 = (n2 - 1) as usize;
        assert(n % 2 == 1 ==> n & m != 0) by (bit_vector)
            requires
                n > 1usize,
                m == n - 1,
        ;
        assert(n % 2 == 0 ==> (n & m == 0 <==> n2 & m2 == 0)) by (bit_vector)
            requires
                n > 1usize,
                m == n - 1,
                n2 == n / 2,
                m2 == n2 - 1,
        ;
        lemma_power_of_two_test(n2, m2);
    }
}

/// Whether `n` is a power of two.
pub fn is_power_of_two(n: usize) -> (result: bool)
    ensures
        result == is_pow2(n as int),
{
    proof {
        reveal(is_pow2);
        if n > 0 {
            lemma_power_of_two_test(n, (n - 1) as usize);
        }
    }
    n != 0 && n & (n - 1) == 0
}

/// Aligns `n` up to `align`; `None` where the sum leading to it leaves the range of `usize`.
pub fn align_to_checked(n: usize, align: usize) -> (result: Option<usize>)
    requires
        is_pow2(align as int),
    ensures
        result == if n + align - 1 <= usize::MAX {
            Some(align_up(n as int, align as int) as usize)
        } else {
            None
        },
{
    proof {
        reveal(is_pow2);
    }
    match n.checked_add(align - 1) {
        Some(sum) => {
            proof {
                lemma_mask(sum, align, (align - 1) as usize);
            }
            Some(sum & !(align - 1))
        },
        None => None,
    }
}

/// Aligns `n` up to `align` where the sum leading to it is known to be in range.
pub fn align_to_unchecked(n: usize, align: usize) -> (result: usize)
    requires
        is_pow2(align as int),
        n + align - 1 <= usize::MAX,
    ensures
        result == align_up(n as int, align as int),
{
    proof {
        reveal(is_pow2);
        lemma_align_up(n as int, align as int);
    }
    align_to_checked(n, align).unwrap()
}

/// Aligns the address `ptr` down to `align`.
pub fn align_down_with_provenance(ptr: usize, align: usize) -> (result: usize)
    requires
        is_pow2(align as int),
    ensures
        result == align_down(ptr as int, align as int),
{
    proof {
        reveal(is_pow2);
        lemma_mask(ptr, align, (align - 1) as usize);
        lemma_align_down(ptr as int, align as int);
    }
    ptr - (ptr & (align - 1))
}

/// Aligns the address `ptr` up to `align`.
pub fn align_up_non_null_with_provenance_unchecked(ptr: usize, align: usize) -> (result: usize)
    requires
        is_pow2(align as int),
        ptr + align - 1 <= usize::MAX,
    ensures
        result == align_up(ptr as int, align as int),
{
    let rounded = align_to_unchecked(ptr, align);
    proof {
        reveal(is_pow2);
        lemma_align_up(ptr as int, align as int);
    }
    let delta = rounded - ptr;
    ptr + delta
}

/// Checks if `addr` is aligned to `align`.
pub fn is_aligned_to_unchecked(addr: usize, align: usize) -> (result: bool)
    requires
        is_pow2(align as int),
    ensures
        result == (addr % align == 0),
{
    proof {
        reveal(is_pow2);
        lemma_mask(addr, align, (align - 1) as usize);
    }
    addr & (align - 1) == 0
}

} // verus!
