//! Bit reversal of indices.
use vstd::arithmetic::power2::*;
use vstd::prelude::*;

verus! {

/// The lowest `l` bits of `i` in reverse order.
pub open spec fn bitrev(l: nat, i: int) -> int
    decreases l,
{
    if l == 0 {
        0
    } else {
        bitrev((l - 1) as nat, i / 2) + (i % 2) * pow2((l - 1) as nat)
    }
}

pub proof fn lemma_bitrev_bound(l: nat, i: int)
    requires
        i >= 0,
    ensures
        0 <= bitrev(l, i) < pow2(l),
    decreases l,
{
    if l == 0 {
        lemma2_to64();
    } else {
        lemma_bitrev_bound((l - 1) as nat, i / 2);
        lemma_pow2_unfold(l);
        let h = pow2((l - 1) as nat) as int;
        assert((i % 2) * h == 0 || (i % 2) * h == h) by (nonlinear_arith)
            requires
                i % 2 == 0 || i % 2 == 1,
        ;
    }
}

/// The highest bit of an index becomes the lowest one.
proof fn lemma_bitrev_high(l: nat, i: int)
    requires
        l >= 1,
        0 <= i < pow2(l),
    ensures
        bitrev(l, i) == 2 * bitrev((l - 1) as nat, i % (pow2((l - 1) as nat) as int)) + i / (pow2(
            (l - 1) as nat,
        ) as int),
    decreases l,
{
    let h = pow2((l - 1) as nat) as int;
    lemma2_to64();
    lemma_pow2_unfold(l);
    lemma_pow2_pos((l - 1) as nat);
    if l == 1 {
        reveal_with_fuel(bitrev, 2);
        assert(i % 1 == 0 && i / 1 == i);
    } else {
        let g = pow2((l - 2) as nat) as int;
        lemma_pow2_unfold((l - 1) as nat);
        lemma_pow2_pos((l - 2) as nat);
        lemma_bitrev_high((l - 1) as nat, i / 2);
        let q = i / h;
        let m = i % h;
        vstd::arithmetic::div_mod::lemma_fundamental_div_mod(i, h);
        assert(h == 2 * g);
        assert(i == h * q + m);
        assert(h * q == 2 * (g * q)) by (nonlinear_arith)
            requires
                h == 2 * g,
        ;
        assert(m % 2 == i % 2);
        assert(i / 2 == g * q + m / 2);
        vstd::arithmetic::div_mod::lemma_fundamental_div_mod_converse(i / 2, g, q, m / 2);
        assert((i % 2) * h == 2 * ((i % 2) * g)) by (nonlinear_arith)
            requires
                h == 2 * g,
        ;
    }
}

/// Reversing twice gives the index back.
pub proof fn lemma_bitrev_involution(l: nat, i: int)
    requires
        0 <= i < pow2(l),
    ensures
        0 <= bitrev(l, i) < pow2(l),
        bitrev(l, bitrev(l, i)) == i,
    decreases l,
{
    lemma_bitrev_bound(l, i);
    if l == 0 {
        lemma2_to64();
    } else {
        let h = pow2((l - 1) as nat) as int;
        lemma_pow2_unfold(l);
        lemma_bitrev_involution((l - 1) as nat, i / 2);
        let b = bitrev(l, i);
        let r = bitrev((l - 1) as nat, i / 2);
        assert(b == h * (i % 2) + r) by (nonlinear_arith)
            requires
                b == r + (i % 2) * h,
        ;
        vstd::arithmetic::div_mod::lemma_fundamental_div_mod_converse(b, h, i % 2, r);
        lemma_bitrev_high(l, b);
    }
}

/// The lowest `log_n` bits of `i` in reverse order.
pub fn bit_reverse(i: usize, log_n: u32) -> (r: usize)
    requires
        pow2(log_n as nat) <= usize::MAX,
    ensures
        r == bitrev(log_n as nat, i as int),
{
    let mut n: usize = i;
    let mut r: usize = 0;
    let mut t: u32 = 0;
    proof {
        lemma2_to64();
    }
    while t < log_n
        invariant
            t <= log_n,
            pow2(log_n as nat) <= usize::MAX,
            r < pow2(t as nat),
            bitrev(log_n as nat, i as int) == bitrev((log_n - t) as nat, n as int) + r * pow2(
                (log_n - t) as nat,
            ),
        decreases log_n - t,
    {
        proof {
            let e = (log_n - t) as nat;
            let h = pow2((e - 1) as nat) as int;
            lemma_pow2_unfold(e);
            lemma_pow2_unfold((t + 1) as nat);
            if t + 1 < log_n {
                lemma_pow2_strictly_increases((t + 1) as nat, log_n as nat);
            }
            assert((2 * r + n % 2) * h == r * (2 * h) + (n % 2) * h) by (nonlinear_arith);
        }
        r = 2 * r + n % 2;
        n = n / 2;
        t = t + 1;
    }
    proof {
        lemma2_to64();
        assert(r * 1 == r);
    }
    r
}

} // verus!
