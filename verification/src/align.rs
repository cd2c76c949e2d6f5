//! Sector sizes and alignment.

use vstd::prelude::*;
use vstd::arithmetic::div_mod::*;

use crate::error;
use crate::error::{invalid_input, Result};

verus! {

/// Whether `n` is a power of two.
pub open spec fn is_pow2(n: nat) -> bool
    decreases n,
{
    n == 1 || (n > 1 && n % 2 == 0 && is_pow2(n / 2))
}

/// The least multiple of `align` that is not below `value`.
pub open spec fn aligned_up(value: int, align: int) -> int {
    (value + align - 1) / align * align
}

/// The alignment of `value` as a `u64`, which overflows near the top of the range.
pub open spec fn align_up_outcome(value: u64, align: u64) -> std::result::Result<u64, error::Fault> {
    if value + align - 1 > u64::MAX {
        Err(error::invalid_input_fault("alignment overflow"@))
    } else {
        Ok(aligned_up(value as int, align as int) as u64)
    }
}

/// An aligned value is the nearest multiple at or above.
pub proof fn lemma_aligned_up(value: int, align: int)
    requires
        0 <= value,
        0 < align,
    ensures
        value <= aligned_up(value, align) < value + align,
        aligned_up(value, align) % align == 0,
        value % align == 0 ==> aligned_up(value, align) == value,
{
    let q = (value + align - 1) / align;
    lemma_fundamental_div_mod(value + align - 1, align);
    lemma_mod_multiples_basic(q, align);
    assert(q * align == align * q) by (nonlinear_arith);
    if value % align == 0 {
        lemma_fundamental_div_mod(value, align);
        let k = value / align;
        assert(q == k) by {
            lemma_div_multiples_vanish_fancy(k, align - 1, align);
        }
    }
}

/// A smaller power of two divides a larger one.
pub proof fn lemma_pow2_divides(a: nat, b: nat)
    requires
        is_pow2(a),
        is_pow2(b),
        a <= b,
    ensures
        b % a == 0,
    decreases b,
{
    if a == 1 {
    } else {
        assert(b > 1);
        lemma_pow2_divides(a / 2, b / 2);
        let k = (b / 2) / (a / 2);
        lemma_fundamental_div_mod((b / 2) as int, (a / 2) as int);
        assert(b == a * k) by (nonlinear_arith)
            requires
                b == 2 * (b / 2),
                a == 2 * (a / 2),
                b / 2 == (a / 2) * k,
        ;
        lemma_mod_multiples_basic(k as int, a as int);
        assert(a * k == k * a) by (nonlinear_arith);
    }
}

/// Sums of multiples are multiples.
pub proof fn lemma_multiple_sum(a: int, b: int, m: int)
    requires
        0 < m,
        a % m == 0,
        b % m == 0,
    ensures
        (a + b) % m == 0,
        (a - b) % m == 0,
{
    lemma_small_mod(0nat, m as nat);
    lemma_add_mod_noop(a, b, m);
    lemma_sub_mod_noop(a, b, m);
}

/// A multiple of a multiple is a multiple.
pub proof fn lemma_multiple_chain(a: int, m: int, n: int)
    requires
        0 < m,
        0 < n,
        a % m == 0,
        m % n == 0,
    ensures
        a % n == 0,
{
    lemma_fundamental_div_mod(a, m);
    lemma_fundamental_div_mod(m, n);
    let k = a / m;
    let j = m / n;
    assert(a == (j * k) * n) by (nonlinear_arith)
        requires
            a == m * k,
            m == n * j,
    ;
    lemma_mod_multiples_basic(j * k, n);
}

/// Whether `n` is a power of two.
pub fn is_power_of_two(n: u64) -> (r: bool)
    ensures
        r == is_pow2(n as nat),
    decreases n,
{
    if n == 1 {
        true
    } else if n == 0 || n % 2 != 0 {
        false
    } else {
        is_power_of_two(n / 2)
    }
}

/// Round `value` up to a multiple of `align`.
pub fn align_up(value: u64, align: u64) -> (r: Result<u64>)
    requires
        align > 0,
    ensures
        error::outcome(r) == align_up_outcome(value, align),
        r matches Ok(v) ==> v == aligned_up(value as int, align as int),
{
    match value.checked_add(align - 1) {
        Some(sum) => {
            proof {
                lemma_aligned_up(value as int, align as int);
                lemma_fundamental_div_mod(sum as int, align as int);
                let q = sum as int / align as int;
                assert(0 <= q * align <= sum) by (nonlinear_arith)
                    requires
                        sum == align * q + sum as int % align as int,
                        0 <= sum as int % align as int,
                        0 <= q,
                        0 < align,
                ;
                lemma_div_pos_is_pos(sum as int, align as int);
            }
            Ok(sum / align * align)
        },
        None => Err(invalid_input("alignment overflow")),
    }
}

/// The size of a v1 local record: header, name and padding up to a sector boundary.
pub open spec fn v1_record_size(name_len: int, sector_size: int) -> int {
    aligned_up(name_len + sector_size + 0x3D, sector_size)
}

/// The size of a v1 local record as a `u64`.
pub open spec fn v1_record_size_outcome(name_len: u64, sector_size: u64) -> std::result::Result<
    u64,
    error::Fault,
> {
    if name_len + sector_size + 0x3D > u64::MAX {
        Err(error::invalid_input_fault("v1 local file record size overflow"@))
    } else {
        align_up_outcome((name_len + sector_size + 0x3D) as u64, sector_size)
    }
}

/// Compute the size of a v1 local record.
pub fn v1_local_file_record_size(name_len: u64, sector_size: u64) -> (r: Result<u64>)
    requires
        sector_size > 0,
    ensures
        error::outcome(r) == v1_record_size_outcome(name_len, sector_size),
        r matches Ok(v) ==> v == v1_record_size(name_len as int, sector_size as int),
{
    match name_len.checked_add(sector_size) {
        Some(partial) => match partial.checked_add(0x3D) {
            Some(unaligned) => align_up(unaligned, sector_size),
            None => Err(invalid_input("v1 local file record size overflow")),
        },
        None => Err(invalid_input("v1 local file record size overflow")),
    }
}

/// The size of a v1 local record, when the sector size is usable and the size fits.
pub fn v1_local_record_size_from_name_len(name_len: u64, sector_size: u64) -> (r: Option<u64>)
    ensures
        r == (if is_pow2(sector_size as nat) && name_len + sector_size + 0x3D + sector_size - 1
            <= u64::MAX {
            Some(v1_record_size(name_len as int, sector_size as int) as u64)
        } else {
            None
        }),
        r matches Some(v) ==> v == v1_record_size(name_len as int, sector_size as int),
{
    if !is_power_of_two(sector_size) {
        return None;
    }
    match v1_local_file_record_size(name_len, sector_size) {
        Ok(size) => Some(size),
        Err(_) => None,
    }
}

/// The powers of two are the numbers that doubling 1 some number of times gives.
pub proof fn law_powers_of_two(n: nat)
    ensures
        is_pow2(n) <==> exists|k: nat| n == #[trigger] vstd::arithmetic::power2::pow2(k),
{
    if is_pow2(n) {
        lemma_is_doubled(n);
    }
    if exists|k: nat| n == #[trigger] vstd::arithmetic::power2::pow2(k) {
        let k = choose|k: nat| n == #[trigger] vstd::arithmetic::power2::pow2(k);
        lemma_doubled(k);
    }
}

proof fn lemma_is_doubled(n: nat)
    requires
        is_pow2(n),
    ensures
        exists|k: nat| n == #[trigger] vstd::arithmetic::power2::pow2(k),
    decreases n,
{
    vstd::arithmetic::power2::lemma2_to64();
    if n == 1 {
        assert(n == vstd::arithmetic::power2::pow2(0));
    } else {
        lemma_is_doubled(n / 2);
        let k = choose|k: nat| n / 2 == #[trigger] vstd::arithmetic::power2::pow2(k);
        vstd::arithmetic::power2::lemma_pow2_unfold(k + 1);
        assert(n == vstd::arithmetic::power2::pow2(k + 1));
    }
}

proof fn lemma_doubled(k: nat)
    ensures
        is_pow2(vstd::arithmetic::power2::pow2(k)),
    decreases k,
{
    vstd::arithmetic::power2::lemma2_to64();
    if k > 0 {
        let n = (k - 1) as nat;
        lemma_doubled(n);
        vstd::arithmetic::power2::lemma_pow2_unfold(k);
        vstd::arithmetic::power2::lemma_pow2_pos(n);
        assert(vstd::arithmetic::power2::pow2(k) / 2 == vstd::arithmetic::power2::pow2(n));
    }
}

/// The aligned value is the only multiple at or above the value and less than one
/// step above it.
pub proof fn law_aligned_up(value: int, align: int, aligned: int)
    requires
        0 <= value,
        0 < align,
    ensures
        aligned == aligned_up(value, align) <==> aligned % align == 0 && value <= aligned < value
            + align,
{
    let least = aligned_up(value, align);
    lemma_aligned_up(value, align);
    if aligned % align == 0 && value <= aligned < value + align {
        let a = aligned / align;
        let b = least / align;
        lemma_fundamental_div_mod(aligned, align);
        lemma_fundamental_div_mod(least, align);
        assert(a == b) by (nonlinear_arith)
            requires
                aligned == align * a,
                least == align * b,
                -align < aligned - least < align,
                0 < align,
        ;
    }
}

/// Rounding up gives the least multiple at or above the value, wherever the sum that it
/// takes can be held.
pub proof fn law_align_up(value: u64, align: u64, aligned: u64)
    requires
        align > 0,
    ensures
        align_up_outcome(value, align) == Ok::<u64, error::Fault>(aligned) <==> {
            &&& value + align - 1 <= u64::MAX
            &&& aligned % align == 0
            &&& value <= aligned < value + align
        },
{
    law_aligned_up(value as int, align as int, aligned as int);
    lemma_aligned_up(value as int, align as int);
}

/// A local record takes the name, a sector and 61 bytes, up to the next sector.
pub proof fn law_v1_record_size(name_len: u64, sector_size: u64, size: u64)
    requires
        sector_size > 0,
    ensures
        v1_record_size_outcome(name_len, sector_size) == Ok::<u64, error::Fault>(size) <==> {
            &&& name_len + sector_size + 61 + sector_size - 1 <= u64::MAX
            &&& size % sector_size == 0
            &&& name_len + sector_size + 61 <= size < name_len + 2 * sector_size + 61
        },
{
    if name_len + sector_size + 61 <= u64::MAX {
        law_align_up((name_len + sector_size + 61) as u64, sector_size, size);
    }
}


} // verus!
