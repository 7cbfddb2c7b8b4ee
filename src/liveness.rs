//! The rule that tells a function left behind by the linker from live code.
//!
//! A function body in a WebAssembly code section starts with its size as an
//! unsigned LEB128 number. Debug information for a function that the linker
//! dropped still names addresses, but they point into that size field instead
//! of at code: the function starts no later than the field ends.

use vstd::prelude::*;

verus! {

pub open spec fn pow2(k: nat) -> nat
    decreases k,
{
    if k == 0 {
        1
    } else {
        2 * pow2((k - 1) as nat)
    }
}

/// The least `k` with `2^k >= n`, searching from `k` (up to 64).
pub open spec fn ceil_log2_from(n: nat, k: nat) -> nat
    decreases 64 - k,
{
    if k >= 64 || pow2(k) >= n {
        k
    } else {
        ceil_log2_from(n, k + 1)
    }
}

/// Number of bits in `next_power_of_two(n)` below its only set bit.
pub open spec fn ceil_log2(n: nat) -> nat {
    ceil_log2_from(n, 0)
}

/// Number of bytes that the size field takes for a function of `fn_size` bytes.
pub open spec fn size_field_len(fn_size: nat) -> nat {
    (ceil_log2(fn_size + 1) + 6) / 7
}

/// Size of the function that spans `low..high`, as a 32-bit count.
pub open spec fn fn_size(low: int, high: int) -> nat {
    ((high - low) % 0x1_0000_0000) as nat
}

/// A function spanning `low..high` starts inside its own size field.
pub open spec fn out_of_range(low: int, high: int) -> bool {
    low <= size_field_len(fn_size(low, high))
}

pub proof fn lemma_pow2_grows(k: nat)
    ensures
        pow2(k + 1) == 2 * pow2(k),
        pow2(k) >= 1,
        pow2(k + 1) > pow2(k),
    decreases k,
{
    if k > 0 {
        lemma_pow2_grows((k - 1) as nat);
    }
}

proof fn lemma_ceil_log2_step(n: nat, k: nat)
    requires
        pow2(k) < n,
        k < 64,
    ensures
        ceil_log2_from(n, k) == ceil_log2_from(n, k + 1),
{
    lemma_pow2_grows(k);
}

proof fn lemma_pow2_32()
    ensures
        pow2(32) == 0x1_0000_0000,
{
    assert(pow2(0) == 1);
    assert(pow2(1) == 2);
    assert(pow2(2) == 4);
    assert(pow2(3) == 8);
    assert(pow2(4) == 16);
    assert(pow2(5) == 32);
    assert(pow2(6) == 64);
    assert(pow2(7) == 128);
    assert(pow2(8) == 256);
    assert(pow2(9) == 512);
    assert(pow2(10) == 1024);
    assert(pow2(11) == 2048);
    assert(pow2(12) == 4096);
    assert(pow2(13) == 8192);
    assert(pow2(14) == 16384);
    assert(pow2(15) == 32768);
    assert(pow2(16) == 65536);
    assert(pow2(17) == 0x2_0000);
    assert(pow2(18) == 0x4_0000);
    assert(pow2(19) == 0x8_0000);
    assert(pow2(20) == 0x10_0000);
    assert(pow2(21) == 0x20_0000);
    assert(pow2(22) == 0x40_0000);
    assert(pow2(23) == 0x80_0000);
    assert(pow2(24) == 0x100_0000);
    assert(pow2(25) == 0x200_0000);
    assert(pow2(26) == 0x400_0000);
    assert(pow2(27) == 0x800_0000);
    assert(pow2(28) == 0x1000_0000);
    assert(pow2(29) == 0x2000_0000);
    assert(pow2(30) == 0x4000_0000);
    assert(pow2(31) == 0x8000_0000);
}

/// Number of bytes that the size field takes for a function of `fn_size` bytes.
pub fn size_field_bytes(fn_size: u32) -> (r: u64)
    ensures
        r as nat == size_field_len(fn_size as nat),
        r <= 5,
{
    let n: u64 = fn_size as u64 + 1;
    let mut p: u64 = 1;
    let mut k: u64 = 0;
    proof {
        lemma_pow2_32();
    }
    while p < n
        invariant
            n == fn_size + 1,
            n <= 0x1_0000_0000,
            p == pow2(k as nat),
            k <= 32,
            p < n ==> k < 32,
            k < 64,
            p >= 1,
            pow2(32) == 0x1_0000_0000,
            ceil_log2_from(n as nat, k as nat) == ceil_log2(n as nat),
        decreases 32 - k,
    {
        proof {
            lemma_ceil_log2_step(n as nat, k as nat);
            lemma_pow2_grows(k as nat);
            if k + 1 < 32 {
                lemma_pow2_mono((k + 1) as nat, 32);
            }
        }
        p = p * 2;
        k = k + 1;
    }
    (k + 6) / 7
}

proof fn lemma_pow2_mono(a: nat, b: nat)
    requires
        a <= b,
    ensures
        pow2(a) <= pow2(b),
    decreases b - a,
{
    if a < b {
        lemma_pow2_mono(a, (b - 1) as nat);
        lemma_pow2_grows((b - 1) as nat);
    }
}

/// Whether the function that spans `low_pc..high_pc` was dropped by the linker.
pub fn is_out_of_range(low_pc: i128, high_pc: i128) -> (r: bool)
    requires
        -0x1_0000_0000_0000_0000 <= low_pc <= 0x1_0000_0000_0000_0000,
        -0x1_0000_0000_0000_0000 <= high_pc <= 0x1_0000_0000_0000_0000,
    ensures
        r == out_of_range(low_pc as int, high_pc as int),
{
    let shifted: i128 = high_pc - low_pc + 0x10_0000_0000_0000_0000;
    let size: i128 = shifted % 0x1_0000_0000;
    proof {
        let d = high_pc as int - low_pc as int;
        assert(d % 0x1_0000_0000 == (d + 0x10_0000_0000_0000_0000) % 0x1_0000_0000) by (nonlinear_arith)
            requires d == high_pc as int - low_pc as int,
        ;
    }
    let len = size_field_bytes(size as u32);
    low_pc <= len as i128
}

} // verus!
