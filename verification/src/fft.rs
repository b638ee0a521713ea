//! The radix-2 Fourier transform of a column of field elements.
use crate::bits::bit_reverse;
use crate::bits;
use crate::field::PrimeField;
use crate::field;
use crate::zp;
use vstd::arithmetic::power2::*;
use vstd::prelude::*;

verus! {

/// `x[start], x[start + step], x[start + 2 step], ...`, `count` entries in all.
pub open spec fn every(x: Seq<int>, start: int, step: int, count: int) -> Seq<int> {
    Seq::new(count as nat, |i: int| x[start + step * i])
}

/// The factor of the `i`-th butterfly: entry `i` of the table, and one for the first.
pub open spec fn twiddle(tw: Seq<int>, i: int) -> int {
    if i == 0 {
        1
    } else {
        tw[i]
    }
}

/// The decimation-in-time transform of `x`, whose length is a power of two:
/// transform the even and the odd entries, then join them with the factors
/// `tw[0], tw[stride], tw[2 stride], ...`.
pub open spec fn fft(p: int, x: Seq<int>, tw: Seq<int>, stride: int) -> Seq<int>
    decreases x.len(),
{
    if x.len() <= 1 {
        x
    } else {
        let h = x.len() as int / 2;
        let e = fft(p, every(x, 0, 2, h), tw, 2 * stride);
        let o = fft(p, every(x, 1, 2, h), tw, 2 * stride);
        Seq::new(
            (2 * h) as nat,
            |j: int|
                if j < h {
                    (e[j] + twiddle(tw, j * stride) * o[j]) % p
                } else {
                    (e[j - h] - twiddle(tw, (j - h) * stride) * o[j - h]) % p
                },
        )
    }
}

/// The first powers of `omega`: the factors of a transform of size `2^log_n`.
pub fn compute_twiddles<F: PrimeField>(omega: &F, log_n: u32) -> (tw: Vec<F>)
    requires
        log_n >= 1,
        pow2(log_n as nat) <= usize::MAX,
    ensures
        tw@.len() == pow2((log_n - 1) as nat),
        forall|i: int|
            0 <= i < tw@.len() ==> (#[trigger] tw@[i]).val() == zp::pw(omega.val(), i)
                % F::modulus(),
{
    let ghost p = F::modulus();
    proof {
        F::lemma_modulus();
        lemma_pow2_unfold(log_n as nat);
        zp::lemma_pw0(omega.val());
        zp::lemma_small(p, 1);
    }
    let n: usize = power_of_two(log_n - 1);
    let mut tw: Vec<F> = Vec::with_capacity(n);
    let mut w: F = F::one();
    while tw.len() < n
        invariant
            p == F::modulus(),
            p > 2,
            tw@.len() <= n,
            w.val() == zp::pw(omega.val(), tw@.len() as int) % p,
            forall|i: int|
                0 <= i < tw@.len() ==> (#[trigger] tw@[i]).val() == zp::pw(omega.val(), i) % p,
        decreases n - tw@.len(),
    {
        proof {
            let i = tw@.len() as int;
            zp::lemma_pw_succ(omega.val(), i);
            zp::lemma_reduce(p, zp::pw(omega.val(), i));
            zp::lemma_eqm_mul(p, w.val(), zp::pw(omega.val(), i), omega.val(), omega.val());
        }
        tw.push(w);
        w = w.mul(*omega);
    }
    tw
}

/// `2^e`.
pub fn power_of_two(e: u32) -> (r: usize)
    requires
        pow2(e as nat) <= usize::MAX,
    ensures
        r == pow2(e as nat),
{
    let mut r: usize = 1;
    let mut i: u32 = 0;
    proof {
        lemma2_to64();
    }
    while i < e
        invariant
            i <= e,
            r == pow2(i as nat),
            pow2(e as nat) <= usize::MAX,
        decreases e - i,
    {
        proof {
            lemma_pow2_unfold((i + 1) as nat);
            if i + 1 < e {
                lemma_pow2_strictly_increases((i + 1) as nat, e as nat);
            }
        }
        r = 2 * r;
        i = i + 1;
    }
    r
}

/// Puts the entry of each index at the index with the bits reversed.
fn permute<F: PrimeField>(a: &mut [F], log_n: u32)
    requires
        old(a)@.len() == pow2(log_n as nat),
    ensures
        final(a)@.len() == old(a)@.len(),
        forall|i: int|
            0 <= i < old(a)@.len() ==> #[trigger] final(a)@[i] == old(a)@[bits::bitrev(
                log_n as nat,
                i,
            )],
{
    let n: usize = a.len();
    let ghost a0 = a@;
    let ghost l = log_n as nat;
    let mut i: usize = 0;
    proof {
        assert forall|k: int| 0 <= k < n implies #[trigger] bits::bitrev(l, k) >= 0 by {
            bits::lemma_bitrev_bound(l, k);
        }
    }
    while i < n
        invariant
            i <= n,
            n == pow2(l),
            l == log_n,
            a0.len() == n,
            a@.len() == n,
            forall|k: int|
                0 <= k < n ==> #[trigger] a@[k] == if k < i || bits::bitrev(l, k) < i {
                    a0[bits::bitrev(l, k)]
                } else {
                    a0[k]
                },
        decreases n - i,
    {
        let r: usize = bit_reverse(i, log_n);
        proof {
            assert forall|k: int| 0 <= k < n implies 0 <= #[trigger] bits::bitrev(l, k) < n
                && bits::bitrev(l, bits::bitrev(l, k)) == k by {
                bits::lemma_bitrev_involution(l, k);
            }
            assert(bits::bitrev(l, bits::bitrev(l, i as int)) == i);
        }
        if i < r {
            let x: F = a[i];
            a[i] = a[r];
            a[r] = x;
        }
        i = i + 1;
    }
    proof {
        assert forall|k: int| 0 <= k < n implies #[trigger] a@[k] == a0[bits::bitrev(l, k)] by {}
    }
}

/// Block `b` of `a`, `2^s` entries long, holds the transform of every
/// `2^(l-s)`-th entry of `x`, starting at the reversal of `b`.
spec fn block_done(p: int, a: Seq<int>, x: Seq<int>, tw: Seq<int>, l: nat, s: nat, b: int) -> bool {
    let m = pow2(s) as int;
    let d = pow2((l - s) as nat) as int;
    let t = fft(p, every(x, bits::bitrev((l - s) as nat, b), d, m), tw, d);
    forall|j: int| 0 <= j < m ==> #[trigger] a[b * m + j] == t[j]
}

proof fn lemma_fft_len(p: int, x: Seq<int>, tw: Seq<int>, stride: int, s: nat)
    requires
        x.len() == pow2(s),
    ensures
        fft(p, x, tw, stride).len() == x.len(),
{
    lemma2_to64();
    if s > 0 {
        lemma_pow2_unfold(s);
        lemma_pow2_pos((s - 1) as nat);
    }
}

/// Joining blocks `2 c` and `2 c + 1` gives block `c` of the next stage.
proof fn lemma_join(
    p: int,
    a: Seq<int>,
    a2: Seq<int>,
    x: Seq<int>,
    tw: Seq<int>,
    l: nat,
    s: nat,
    c: int,
)
    requires
        s < l,
        x.len() == pow2(l),
        0 <= c < pow2((l - s - 1) as nat),
        block_done(p, a, x, tw, l, s, 2 * c),
        block_done(p, a, x, tw, l, s, 2 * c + 1),
        ({
            let m = pow2(s) as int;
            let d = pow2((l - s - 1) as nat) as int;
            forall|j: int|
                0 <= j < m ==> #[trigger] a2[c * (2 * m) + j] == (a[2 * c * m + j] + twiddle(
                    tw,
                    j * d,
                ) * a[(2 * c + 1) * m + j]) % p
        }),
        ({
            let m = pow2(s) as int;
            let d = pow2((l - s - 1) as nat) as int;
            forall|j: int|
                0 <= j < m ==> #[trigger] a2[c * (2 * m) + m + j] == (a[2 * c * m + j] - twiddle(
                    tw,
                    j * d,
                ) * a[(2 * c + 1) * m + j]) % p
        }),
    ensures
        block_done(p, a2, x, tw, l, s + 1, c),
{
    let m = pow2(s) as int;
    let d = pow2((l - s - 1) as nat) as int;
    let r = bits::bitrev((l - s - 1) as nat, c);
    lemma_pow2_unfold(s + 1);
    lemma_pow2_unfold((l - s) as nat);
    lemma_pow2_pos(s);
    let big = every(x, r, d, 2 * m);
    assert(bits::bitrev((l - s) as nat, 2 * c) == r) by {
        assert((2 * c) / 2 == c && (2 * c) % 2 == 0);
        assert(0 * d == 0);
    }
    assert(bits::bitrev((l - s) as nat, 2 * c + 1) == r + d) by {
        assert((2 * c + 1) / 2 == c && (2 * c + 1) % 2 == 1);
        assert(1 * d == d);
    }
    let ev = every(x, r, 2 * d, m);
    let od = every(x, r + d, 2 * d, m);
    assert(every(big, 0, 2, m) =~= ev) by {
        assert forall|i: int| 0 <= i < m implies #[trigger] every(big, 0, 2, m)[i] == ev[i] by {
            assert(d * (2 * i) == (2 * d) * i) by (nonlinear_arith);
        }
    }
    assert(every(big, 1, 2, m) =~= od) by {
        assert forall|i: int| 0 <= i < m implies #[trigger] every(big, 1, 2, m)[i] == od[i] by {
            assert(d * (1 + 2 * i) == d + (2 * d) * i) by (nonlinear_arith);
        }
    }
    let t = fft(p, big, tw, d);
    let e = fft(p, ev, tw, 2 * d);
    let o = fft(p, od, tw, 2 * d);
    assert(big.len() == 2 * m);
    assert forall|j: int| 0 <= j < 2 * m implies #[trigger] a2[c * (2 * m) + j] == t[j] by {
        if j < m {
            assert(a2[c * (2 * m) + j] == (a[2 * c * m + j] + twiddle(tw, j * d) * a[(2 * c + 1) * m
                + j]) % p);
            assert(a[2 * c * m + j] == e[j]);
            assert(a[(2 * c + 1) * m + j] == o[j]);
        } else {
            let k = j - m;
            assert(a2[c * (2 * m) + m + k] == (a[2 * c * m + k] - twiddle(tw, k * d) * a[(2 * c + 1)
                * m + k]) % p);
            assert(a[2 * c * m + k] == e[k]);
            assert(a[(2 * c + 1) * m + k] == o[k]);
        }
    }
}

/// Transforms `a`, of size `2^log_n`, in place.
///
/// A transform of size one changes nothing.
pub fn fft_serial<F: PrimeField>(a: &mut [F], twiddles: &[F], log_n: u32)
    requires
        log_n > 0 ==> old(a)@.len() == pow2(log_n as nat),
        log_n > 1 ==> twiddles@.len() >= pow2((log_n - 1) as nat),
    ensures
        log_n == 0 ==> final(a)@ == old(a)@,
        log_n > 0 ==> field::vals(final(a)@) == fft(
            F::modulus(),
            field::vals(old(a)@),
            field::vals(twiddles@),
            1,
        ),
        final(a)@.len() == old(a)@.len(),
{
    if log_n == 0 {
        return;
    }
    let n: usize = a.len();
    let ghost p = F::modulus();
    let ghost l = log_n as nat;
    let ghost x = field::vals(a@);
    let ghost tw = field::vals(twiddles@);
    proof {
        F::lemma_modulus();
        lemma2_to64();
    }
    permute(a, log_n);
    proof {
        lemma_pow2_unfold(l);
        assert forall|b: int| 0 <= b < n implies #[trigger] block_done(
            p,
            field::vals(a@),
            x,
            tw,
            l,
            0,
            b,
        ) by {
            bits::lemma_bitrev_bound(l, b);
            let r = bits::bitrev(l, b);
            let one = every(x, r, n as int, 1);
            assert(one[0] == x[r + n * 0]);
            assert(r + n * 0 == r);
            assert forall|j: int| 0 <= j < 1 implies #[trigger] field::vals(a@)[b * 1 + j] == fft(
                p,
                one,
                tw,
                n as int,
            )[j] by {
                assert(b * 1 + j == b);
            }
        }
    }
    let mut half: usize = 1;
    let mut twiddle_chunk: usize = n / 2;
    let mut s: u32 = 0;
    while s < log_n
        invariant
            s <= log_n,
            l == log_n,
            log_n > 0,
            n == pow2(l),
            a@.len() == n,
            x.len() == n,
            p == F::modulus(),
            p > 2,
            tw == field::vals(twiddles@),
            log_n > 1 ==> twiddles@.len() >= pow2((l - 1) as nat),
            half == pow2(s as nat),
            s < log_n ==> twiddle_chunk == pow2((l - s - 1) as nat),
            forall|b: int|
                0 <= b < pow2((l - s) as nat) ==> #[trigger] block_done(
                    p,
                    field::vals(a@),
                    x,
                    tw,
                    l,
                    s as nat,
                    b,
                ),
        decreases log_n - s,
    {
        let ghost sn = s as nat;
        let ghost d = twiddle_chunk as int;
        proof {
            lemma_pow2_adds(sn, (l - s) as nat);
            lemma_pow2_unfold((l - s) as nat);
            lemma_pow2_unfold(sn + 1);
            lemma_pow2_pos(sn);
            lemma_pow2_pos((l - s - 1) as nat);
            assert(half * (2 * d) == n);
            assert((2 * half) * d == half * (2 * d)) by (nonlinear_arith);
            assert(2 * half <= n) by (nonlinear_arith)
                requires
                    half * (2 * d) == n,
                    d >= 1,
                    half >= 1,
            ;
        }
        let chunk: usize = 2 * half;
        let mut base: usize = 0;
        let mut c: usize = 0;
        while c < twiddle_chunk
            invariant
                c <= twiddle_chunk,
                d == twiddle_chunk,
                base == c * chunk,
                chunk == 2 * half,
                half >= 1,
                half == pow2(sn),
                d == pow2((l - sn - 1) as nat),
                2 * d == pow2((l - sn) as nat),
                2 * half == pow2(sn + 1),
                chunk * d == n,
                sn < l,
                l == log_n,
                n == pow2(l),
                a@.len() == n,
                x.len() == n,
                p == F::modulus(),
                p > 2,
                tw == field::vals(twiddles@),
                log_n > 1 ==> twiddles@.len() >= pow2((l - 1) as nat),
                forall|b: int|
                    0 <= b < c ==> #[trigger] block_done(
                        p,
                        field::vals(a@),
                        x,
                        tw,
                        l,
                        sn + 1,
                        b,
                    ),
                forall|b: int|
                    2 * c <= b < 2 * d ==> #[trigger] block_done(
                        p,
                        field::vals(a@),
                        x,
                        tw,
                        l,
                        sn,
                        b,
                    ),
            decreases twiddle_chunk - c,
        {
            let ghost a0 = a@;
            proof {
                assert(base + chunk <= n) by (nonlinear_arith)
                    requires
                        base == c * chunk,
                        chunk * d == n,
                        c + 1 <= d,
                        chunk >= 0,
                ;
            }
            let mut i: usize = 0;
            while i < half
                invariant
                    i <= half,
                    d == twiddle_chunk,
                    base + chunk <= n,
                    chunk == 2 * half,
                    chunk * d == n,
                    half >= 1,
                    d >= 1,
                    half == pow2(sn),
                    d == pow2((l - sn - 1) as nat),
                    sn < l,
                    l == log_n,
                    n == pow2(l),
                    a@.len() == n,
                    a0.len() == n,
                    p == F::modulus(),
                    p > 2,
                    tw == field::vals(twiddles@),
                    log_n > 1 ==> twiddles@.len() >= pow2((l - 1) as nat),
                    forall|k: int|
                        0 <= k < n && !(base <= k < base + i) && !(base + half <= k < base + half
                            + i) ==> #[trigger] a@[k] == a0[k],
                    forall|j: int|
                        0 <= j < i ==> (#[trigger] a@[base + j]).val() == (a0[base + j].val()
                            + twiddle(tw, j * d) * a0[base + half + j].val()) % p,
                    forall|j: int|
                        0 <= j < i ==> (#[trigger] a@[base + half + j]).val() == (a0[base
                            + j].val() - twiddle(tw, j * d) * a0[base + half + j].val()) % p,
                decreases half - i,
            {
                let u: F = a[base + i];
                let v: F = a[base + half + i];
                let t: F = if i == 0 {
                    proof {
                        v.lemma_val();
                        zp::lemma_small(p, v.val());
                        assert(0 * d == 0);
                        assert(1 * v.val() == v.val());
                    }
                    v
                } else {
                    proof {
                        assert(i * d < half * d) by (nonlinear_arith)
                            requires
                                i < half,
                                d >= 1,
                        ;
                        assert(i * d >= 1) by (nonlinear_arith)
                            requires
                                i >= 1,
                                d >= 1,
                        ;
                        assert(half * d == pow2((l - 1) as nat)) by {
                            lemma_pow2_adds(sn, (l - sn - 1) as nat);
                        }
                        lemma_pow2_unfold(l);
                        assert(l > 1) by {
                            lemma2_to64();
                        }
                    }
                    let w: F = twiddles[i * twiddle_chunk];
                    proof {
                        assert(w.val() == tw[i * d]);
                        assert(v.val() * w.val() == w.val() * v.val()) by (nonlinear_arith);
                    }
                    v.mul(w)
                };
                proof {
                    let tv = twiddle(tw, i * d) * v.val();
                    zp::lemma_reduce(p, tv);
                    assert(zp::eqm(p, t.val(), tv));
                    zp::lemma_eqm_add(p, u.val(), u.val(), t.val(), tv);
                    zp::lemma_eqm_sub(p, u.val(), u.val(), t.val(), tv);
                }
                a[base + i] = u.add(t);
                a[base + half + i] = u.sub(t);
                i = i + 1;
            }
            proof {
                let va0 = field::vals(a0);
                let va = field::vals(a@);
                let m = half as int;
                assert(block_done(p, va0, x, tw, l, sn, 2 * c as int));
                assert(block_done(p, va0, x, tw, l, sn, 2 * c as int + 1));
                assert(base == c * (2 * m));
                assert(2 * (c as int) * m == c * (2 * m)) by (nonlinear_arith);
                assert((2 * (c as int) + 1) * m == c * (2 * m) + m) by (nonlinear_arith);
                assert forall|j: int| 0 <= j < m implies #[trigger] va[c * (2 * m) + j] == (va0[2
                    * (c as int) * m + j] + twiddle(tw, j * d) * va0[(2 * (c as int) + 1) * m + j])
                    % p by {
                    assert(va[base + j] == a@[base + j].val());
                }
                assert forall|j: int| 0 <= j < m implies #[trigger] va[c * (2 * m) + m + j] == (
                va0[2 * (c as int) * m + j] - twiddle(tw, j * d) * va0[(2 * (c as int) + 1) * m
                    + j]) % p by {
                    assert(va[base + m + j] == a@[base + half + j].val());
                }
                lemma_join(p, va0, va, x, tw, l, sn, c as int);
                assert forall|b: int| 0 <= b < c implies #[trigger] block_done(
                    p,
                    va,
                    x,
                    tw,
                    l,
                    sn + 1,
                    b,
                ) by {
                    assert(block_done(p, va0, x, tw, l, sn + 1, b));
                    assert forall|j: int| 0 <= j < 2 * m implies #[trigger] va[b * (2 * m) + j] == va0[b
                        * (2 * m) + j] by {
                        assert(0 <= b * (2 * m) + j < c * (2 * m)) by (nonlinear_arith)
                            requires
                                0 <= b < c,
                                0 <= j < 2 * m,
                                m >= 1,
                        ;
                    }
                }
                assert forall|b: int| 2 * (c + 1) <= b < 2 * d implies #[trigger] block_done(
                    p,
                    va,
                    x,
                    tw,
                    l,
                    sn,
                    b,
                ) by {
                    assert(block_done(p, va0, x, tw, l, sn, b));
                    assert forall|j: int| 0 <= j < m implies #[trigger] va[b * m + j] == va0[b * m
                        + j] by {
                        assert(c * (2 * m) + 2 * m <= b * m + j < n) by (nonlinear_arith)
                            requires
                                2 * (c + 1) <= b < 2 * d,
                                0 <= j < m,
                                m >= 1,
                                (2 * m) * d == n,
                        ;
                    }
                }
                assert((c + 1) * chunk == base + chunk) by (nonlinear_arith)
                    requires
                        base == c * chunk,
                ;
            }
            base = base + chunk;
            c = c + 1;
        }
        proof {
            if s + 1 < log_n {
                lemma_pow2_unfold((l - s - 1) as nat);
            }
        }
        half = chunk;
        twiddle_chunk = twiddle_chunk / 2;
        s = s + 1;
    }
    proof {
        lemma2_to64();
        let va = field::vals(a@);
        assert(block_done(p, va, x, tw, l, l, 0));
        let whole = every(x, 0, 1, n as int);
        assert(whole =~= x);
        lemma_fft_len(p, x, tw, 1, l);
        assert forall|j: int| 0 <= j < n implies va[j] == #[trigger] fft(p, x, tw, 1)[j] by {
            assert(va[0 * (n as int) + j] == fft(p, whole, tw, 1)[j]);
        }
        assert(va =~= fft(p, x, tw, 1));
    }
}

} // verus!
