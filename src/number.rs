use vstd::arithmetic::div_mod::*;
use vstd::arithmetic::power2::*;
use vstd::prelude::*;

use crate::chars::digit;

verus! {

/// The value of a decimal digit.
pub open spec fn digit_value(c: char) -> nat {
    (c as u32 - '0' as u32) as nat
}

/// The value of a run of decimal digits.
pub open spec fn digits_value(s: Seq<char>) -> nat
    decreases s.len(),
{
    if s.len() == 0 {
        0
    } else {
        digits_value(s.drop_last()) * 10 + digit_value(s.last())
    }
}

/// The position of the highest set bit of `n`; 0 for 0 and 1.
pub open spec fn log2(n: nat) -> nat
    decreases n,
{
    if n < 2 {
        0
    } else {
        1 + log2(n / 2)
    }
}

/// The significand of a positive `n` whose highest set bit is bit `e`: `n`
/// scaled into `[2^52, 2^53)`, rounded to nearest with ties to even (it may
/// round up to `2^53`).
pub open spec fn significand(n: nat, e: nat) -> nat {
    if e <= 52 {
        n * pow2((52 - e) as nat)
    } else {
        let s = pow2((e - 52) as nat);
        let q = n / s;
        let r = n % s;
        if 2 * r > s || (2 * r == s && q % 2 == 1) {
            q + 1
        } else {
            q
        }
    }
}

/// The bit pattern of positive infinity.
pub const INFINITY_BITS: u64 = 0x7FF0_0000_0000_0000;

/// The bit pattern of the IEEE-754 binary64 value nearest to `n`, ties to
/// even: biased exponent `1023 + e` above bit 52 and the significand's low 52
/// bits below. A significand that rounds up to `2^53` carries into the
/// exponent; a value that reaches `2^1024` is positive infinity.
pub open spec fn binary64_bits(n: nat) -> nat {
    if n == 0 {
        0
    } else if log2(n) >= 1024 {
        INFINITY_BITS as nat
    } else {
        let e = log2(n);
        let raw = ((1023 + e) * pow2(52) + significand(n, e) - pow2(52)) as nat;
        if raw >= INFINITY_BITS {
            INFINITY_BITS as nat
        } else {
            raw
        }
    }
}

proof fn lemma_pow2_le(a: nat, b: nat)
    requires
        a <= b,
    ensures
        pow2(a) <= pow2(b),
{
    if a < b {
        lemma_pow2_strictly_increases(a, b);
    }
}

/// The value of little-endian 32-bit limbs.
pub open spec fn limbs_value(s: Seq<u32>) -> nat
    decreases s.len(),
{
    if s.len() == 0 {
        0
    } else {
        (s[0] + 0x1_0000_0000 * limbs_value(s.drop_first())) as nat
    }
}

proof fn lemma_limbs_push(s: Seq<u32>, x: u32)
    ensures
        limbs_value(s.push(x)) == limbs_value(s) + x * pow2(32 * s.len()),
    decreases s.len(),
{
    lemma2_to64();
    let sx = s.push(x);
    if s.len() == 0 {
        assert(sx.drop_first() =~= Seq::<u32>::empty());
        assert(limbs_value(Seq::<u32>::empty()) == 0);
        assert(sx[0] == x);
        assert(pow2(32 * s.len()) == 1);
        assert(limbs_value(sx) == x);
    } else {
        let rest = s.drop_first();
        assert(sx.drop_first() =~= rest.push(x));
        assert(sx[0] == s[0]);
        lemma_limbs_push(rest, x);
        let w = pow2(32 * rest.len());
        lemma_pow2_adds(32, 32 * rest.len());
        assert(32 + 32 * rest.len() == 32 * s.len());
        assert(pow2(32 * s.len()) == 0x1_0000_0000 * w);
        assert(limbs_value(sx) == s[0] + 0x1_0000_0000 * (limbs_value(rest) + x * w));
        assert(limbs_value(s) == s[0] + 0x1_0000_0000 * limbs_value(rest));
        assert(0x1_0000_0000 * (limbs_value(rest) + x * w) == 0x1_0000_0000 * limbs_value(rest) + x * (
        0x1_0000_0000 * w)) by (nonlinear_arith);
    }
}

proof fn lemma_limbs_bound(s: Seq<u32>)
    ensures
        limbs_value(s) < pow2(32 * s.len()),
        s.len() > 0 && s.last() != 0 ==> limbs_value(s) >= pow2(32 * (s.len() - 1) as nat),
    decreases s.len(),
{
    lemma2_to64();
    if s.len() == 0 {
        assert(pow2(0) == 1);
    } else {
        let d = s.drop_last();
        assert(d.push(s.last()) =~= s);
        lemma_limbs_bound(d);
        lemma_limbs_push(d, s.last());
        lemma_pow2_adds(32 * d.len(), 32);
        assert((32 * d.len() + 32) as nat == 32 * s.len());
        let p = pow2(32 * d.len());
        assert(limbs_value(d) + s.last() * p < p * 0x1_0000_0000) by (nonlinear_arith)
            requires
                limbs_value(d) < p,
                s.last() < 0x1_0000_0000,
        ;
        if s.last() != 0 {
            assert(s.last() * p >= p) by (nonlinear_arith)
                requires
                    s.last() >= 1,
                    p >= 0,
            ;
        }
    }
}

/// Multiplies the value of `limbs` by ten and adds `d`.
fn mul10_add(limbs: &Vec<u32>, d: u32) -> (r: Vec<u32>)
    requires
        d < 10,
    ensures
        limbs_value(r@) == 10 * limbs_value(limbs@) + d,
{
    let mut out: Vec<u32> = Vec::new();
    let mut carry: u64 = d as u64;
    let mut i: usize = 0;
    proof {
        assert(limbs@.take(0) =~= Seq::<u32>::empty());
        assert(out@ =~= Seq::<u32>::empty());
        assert(limbs_value(Seq::<u32>::empty()) == 0);
        assert(pow2(32 * 0nat) == 1) by {
            lemma2_to64();
        }
        assert(carry * pow2(32 * i as nat) == d);
    }
    while i < limbs.len()
        invariant
            i <= limbs@.len(),
            out@.len() == i,
            carry < 10,
            limbs_value(out@) + carry * pow2(32 * i as nat) == 10 * limbs_value(limbs@.take(i as int)) + d,
        decreases limbs@.len() - i,
    {
        let x = limbs[i] as u64 * 10 + carry;
        let lowpart = (x % 0x1_0000_0000) as u32;
        let next = x / 0x1_0000_0000;
        proof {
            let p = pow2(32 * i as nat);
            lemma_limbs_push(out@, lowpart);
            lemma_limbs_push(limbs@.take(i as int), limbs@[i as int]);
            assert(limbs@.take(i as int).push(limbs@[i as int]) =~= limbs@.take(i + 1));
            lemma_pow2_adds(32 * i as nat, 32);
            lemma2_to64();
            assert((32 * i as nat + 32) as nat == 32 * (i + 1) as nat);
            let q = pow2(32 * (i + 1) as nat);
            assert(q == p * 0x1_0000_0000);
            assert(x == lowpart + 0x1_0000_0000 * next);
            assert(limbs_value(out@) + lowpart * p + next * q == 10 * (limbs_value(limbs@.take(i as int))
                + limbs@[i as int] * p) + d) by (nonlinear_arith)
                requires
                    limbs_value(out@) + carry * p == 10 * limbs_value(limbs@.take(i as int)) + d,
                    x == limbs@[i as int] * 10 + carry,
                    x == lowpart + 0x1_0000_0000 * next,
                    q == p * 0x1_0000_0000,
            ;
        }
        out.push(lowpart);
        carry = next;
        i += 1;
    }
    proof {
        assert(limbs@.take(i as int) =~= limbs@);
    }
    if carry > 0 {
        proof {
            lemma_limbs_push(out@, carry as u32);
        }
        out.push(carry as u32);
    } else {
        proof {
            assert(carry * pow2(32 * i as nat) == 0);
        }
    }
    out
}

proof fn lemma_log2_scaled(m: nat, t: nat, low: nat)
    requires
        m >= 1,
        low < pow2(t),
    ensures
        log2(m * pow2(t) + low) == log2(m) + t,
    decreases t,
{
    if t == 0 {
        lemma2_to64();
        assert(pow2(t) == 1);
        assert(low == 0);
        assert(m * pow2(t) + low == m);
    } else {
        lemma_pow2_unfold(t);
        let h = pow2((t - 1) as nat);
        lemma_pow2_pos((t - 1) as nat);
        let n = m * pow2(t) + low;
        let mh = m * h;
        assert(m * pow2(t) == 2 * mh) by (nonlinear_arith)
            requires
                pow2(t) == 2 * h,
                mh == m * h,
        ;
        assert(mh >= 1) by (nonlinear_arith)
            requires
                m >= 1,
                h >= 1,
                mh == m * h,
        ;
        lemma_fundamental_div_mod(low as int, 2);
        lemma_mod_bound(low as int, 2);
        assert(low / 2 < h);
        assert(n == 2 * (mh + low / 2) + low % 2);
        lemma_fundamental_div_mod_converse_div(n as int, 2, (mh + low / 2) as int, (low % 2) as int);
        assert(n / 2 == mh + low / 2);
        assert(n >= 2);
        assert(log2(n) == 1 + log2(n / 2));
        lemma_log2_scaled(m, (t - 1) as nat, low / 2);
    }
}

proof fn lemma_half_compare(mr: nat, h: nat, pt: nat, low: nat, d: nat, s: nat, rn: nat)
    requires
        low < pt,
        pt >= 1,
        d == 2 * h,
        s == d * pt,
        rn == mr * pt + low,
    ensures
        (2 * rn > s) == (mr > h || (mr == h && low > 0)),
        (2 * rn == s) == (mr == h && low == 0),
{
    let hp = h * pt;
    let mp = mr * pt;
    assert(s == 2 * hp) by (nonlinear_arith)
        requires
            d == 2 * h,
            s == d * pt,
            hp == h * pt,
    ;
    if mr > h {
        assert(mp >= hp + pt) by (nonlinear_arith)
            requires
                mr >= h + 1,
                mp == mr * pt,
                hp == h * pt,
        ;
    } else if mr < h {
        assert(mp + pt <= hp) by (nonlinear_arith)
            requires
                mr + 1 <= h,
                mp == mr * pt,
                hp == h * pt,
        ;
    } else {
        assert(mp == hp);
    }
}

proof fn lemma_div_scaled(m: nat, t: nat, low: nat, j: nat)
    requires
        low < pow2(t),
    ensures
        (m * pow2(t) + low) / pow2(j + t) == m / pow2(j),
        (m * pow2(t) + low) % pow2(j + t) == (m % pow2(j)) * pow2(t) + low,
{
    let a = pow2(t);
    let d = pow2(j);
    lemma_pow2_pos(j);
    lemma_pow2_adds(j, t);
    lemma_fundamental_div_mod(m as int, d as int);
    lemma_mod_bound(m as int, d as int);
    let q = m / d;
    let r = m % d;
    let n = m * a + low;
    assert(n == q * (d * a) + (r * a + low)) by (nonlinear_arith)
        requires
            m == d * q + r,
            n == m * a + low,
    ;
    assert(r * a + low < d * a) by (nonlinear_arith)
        requires
            r < d,
            low < a,
    ;
    lemma_fundamental_div_mod_converse_div(n as int, (d * a) as int, q as int, (r * a + low) as int);
    lemma_fundamental_div_mod_converse_mod(n as int, (d * a) as int, q as int, (r * a + low) as int);
}

/// The bit pattern of the binary64 value nearest to `m * 2^(32 k) + low`,
/// where `low < 2^(32 k)` and `sticky` tells whether `low` is non-zero.
fn round_scaled(m: u128, k: usize, sticky: bool, Ghost(low): Ghost<nat>) -> (r: u64)
    requires
        1 <= m,
        m < pow2(96),
        k > 0 ==> m >= pow2(64),
        low < pow2(32 * k as nat),
        sticky == (low != 0),
    ensures
        r as nat == binary64_bits((m * pow2(32 * k as nat) + low) as nat),
{
    let ghost t = (32 * k) as nat;
    let ghost n: nat = (m * pow2(t) + low) as nat;
    proof {
        lemma2_to64();
        lemma2_to64_rest();
        lemma_log2_scaled(m as nat, t, low);
        lemma_pow2_pos(t);
        assert(n >= 1) by (nonlinear_arith)
            requires
                m >= 1,
                pow2(t) >= 1,
                n == m * pow2(t) + low,
        ;
    }
    let mut mm: u128 = m;
    let mut lm: u64 = 0;
    let mut p: u128 = 1;
    while mm >= 2
        invariant
            1 <= mm,
            1 <= p <= m,
            lm < 128,
            m < pow2(96),
            p as nat == pow2(lm as nat),
            mm as nat == m as nat / p as nat,
            lm + log2(mm as nat) == log2(m as nat),
            pow2(63) == 0x8000_0000_0000_0000,
        decreases mm,
    {
        proof {
            lemma_fundamental_div_mod(m as int, p as int);
            lemma_mod_bound(m as int, p as int);
            assert((p as int * 2) <= p as int * mm as int) by (nonlinear_arith)
                requires
                    mm >= 2,
                    p >= 1,
            ;
            lemma_div_denominator(m as int, p as int, 2);
            lemma_pow2_unfold((lm + 1) as nat);
            if lm + 1 >= 96 {
                lemma_pow2_le(96, (lm + 1) as nat);
            }
        }
        mm = mm / 2;
        p = p * 2;
        lm = lm + 1;
    }
    proof {
        lemma_fundamental_div_mod(m as int, p as int);
        lemma_mod_bound(m as int, p as int);
        assert((p as int) <= m as int && (m as int) < 2 * p as int);
        assert(lm == log2(m as nat));
        if k > 0 {
            if lm < 64 {
                lemma_pow2_le((lm + 1) as nat, 64);
                lemma_pow2_unfold((lm + 1) as nat);
            }
        }
    }
    if k > 40 {
        return INFINITY_BITS;
    }
    let e: u64 = lm + 32 * (k as u64);
    if e >= 1024 {
        return INFINITY_BITS;
    }
    let big: u64 = 0x10_0000_0000_0000;
    let sig: u64 = if e <= 52 {
        proof {
            assert(k == 0);
            assert(t == 0);
            assert(pow2(t) == 1);
            assert(low == 0);
            assert(m as int * pow2(t) == m as int) by (nonlinear_arith)
                requires
                    pow2(t) == 1,
            ;
            assert(n == m);
            lemma_pow2_adds(lm as nat, (52 - lm) as nat);
        }
        let scale = (big as u128) / p;
        proof {
            lemma_div_by_multiple(pow2((52 - lm) as nat) as int, p as int);
            assert(scale as nat == pow2((52 - lm) as nat)) by {
                assert(big as int == pow2((52 - lm) as nat) * p as int) by (nonlinear_arith)
                    requires
                        big as int == p as int * pow2((52 - lm) as nat),
                ;
            }
            assert((big as int) <= m as int * scale as int && (m as int * scale as int) < 2 * big as int)
                by (nonlinear_arith)
                requires
                    p as int * scale as int == big as int,
                    (p as int) <= m as int,
                    (m as int) < 2 * p as int,
                    scale >= 1,
            ;
        }
        (m * scale) as u64
    } else {
        let j: u64 = lm - 52;
        let d = p / (big as u128);
        proof {
            lemma_pow2_adds(52, j as nat);
            lemma_div_by_multiple(pow2(j as nat) as int, big as int);
            assert(d as nat == pow2(j as nat)) by {
                assert(p as int == pow2(j as nat) * big as int) by (nonlinear_arith)
                    requires
                        p as int == big as int * pow2(j as nat),
                ;
            }
            lemma_div_scaled(m as nat, t, low, j as nat);
            assert((j + t) as nat == (e - 52) as nat);
            lemma_fundamental_div_mod(m as int, d as int);
            lemma_mod_bound(m as int, d as int);
            let q0 = m as int / d as int;
            let r0 = m as int % d as int;
            assert((big as int) <= q0 && q0 < 2 * big as int) by (nonlinear_arith)
                requires
                    m as int == d as int * q0 + r0,
                    0 <= r0 < d as int,
                    p as int == big as int * d as int,
                    (p as int) <= m as int,
                    (m as int) < 2 * p as int,
                    d >= 1,
            ;
            lemma_pow2_unfold(j as nat);
        }
        let q = m / d;
        let mr = m % d;
        let h = d / 2;
        proof {
            let pt = pow2(t);
            let sp = pow2((e - 52) as nat);
            let rn = ((mr as nat) * pt + low) as nat;
            lemma_pow2_adds(j as nat, t);
            lemma_pow2_pos(t);
            assert(sp == d * pt);
            assert(d == 2 * h);
            lemma_half_compare(mr as nat, h as nat, pt, low, d as nat, sp, rn);
        }
        if mr > h || (mr == h && (sticky || q % 2 == 1)) {
            (q + 1) as u64
        } else {
            q as u64
        }
    };
    proof {
        assert(log2(n) == e);
        assert(sig as nat == significand(n, e as nat));
        assert(big <= sig <= 2 * big);
    }
    let raw = (1023 + e) * big + sig - big;
    if raw >= INFINITY_BITS {
        INFINITY_BITS
    } else {
        raw
    }
}

/// The bit pattern of the binary64 value nearest to `n`.
pub fn binary64_of(n: u64) -> (r: u64)
    ensures
        r as nat == binary64_bits(n as nat),
{
    if n == 0 {
        return 0;
    }
    proof {
        lemma2_to64();
        lemma_pow2_strictly_increases(64, 96);
        assert(pow2(0) == 1);
        assert(n as nat * pow2(0) + 0 == n as nat);
    }
    round_scaled(n as u128, 0, false, Ghost(0))
}

/// The bit pattern of the binary64 value nearest to a run of decimal digits,
/// of any length.
pub fn decimal_to_binary64(s: &str) -> (r: u64)
    requires
        forall|i: int| 0 <= i < s@.len() ==> digit(#[trigger] s@[i]),
    ensures
        r as nat == binary64_bits(digits_value(s@)),
{
    let n = s.unicode_len();
    let mut limbs: Vec<u32> = Vec::new();
    let mut i: usize = 0;
    proof {
        assert(s@.take(0) =~= Seq::<char>::empty());
    }
    while i < n
        invariant
            n == s@.len(),
            i <= n,
            forall|j: int| 0 <= j < s@.len() ==> digit(#[trigger] s@[j]),
            limbs_value(limbs@) == digits_value(s@.take(i as int)),
        decreases n - i,
    {
        let c = s.get_char(i);
        let d = (c as u32 - '0' as u32) as u32;
        proof {
            assert(s@.take(i + 1).drop_last() =~= s@.take(i as int));
            assert(s@.take(i + 1).last() == c);
        }
        limbs = mul10_add(&limbs, d);
        i += 1;
    }
    proof {
        assert(s@.take(i as int) =~= s@);
    }
    // drop leading zero limbs
    while limbs.len() > 0 && limbs[limbs.len() - 1] == 0
        invariant
            limbs_value(limbs@) == digits_value(s@),
        decreases limbs@.len(),
    {
        let ghost before = limbs@;
        limbs.pop();
        proof {
            assert(limbs@.push(0) =~= before);
            lemma_limbs_push(limbs@, 0);
        }
    }
    let len = limbs.len();
    // drop low limbs, keeping the top three and whether any dropped bit was set
    let mut lo: usize = 0;
    let mut sticky = false;
    let ghost mut low: nat = 0;
    proof {
        assert(limbs@.skip(0) =~= limbs@);
        lemma2_to64();
        assert(pow2(32 * 0nat) == 1);
        assert(limbs_value(limbs@.skip(0)) * pow2(32 * 0nat) + low == digits_value(s@));
    }
    while len - lo > 3
        invariant
            len == limbs@.len(),
            lo <= len,
            lo > 0 ==> len - lo >= 3,
            len > 0 ==> limbs@.last() != 0,
            limbs_value(limbs@) == digits_value(s@),
            digits_value(s@) == limbs_value(limbs@.skip(lo as int)) * pow2(32 * lo as nat) + low,
            low < pow2(32 * lo as nat),
            sticky == (low != 0),
        decreases len - lo,
    {
        let ghost rest = limbs@.skip(lo as int);
        let x = limbs[lo];
        proof {
            assert(rest.drop_first() =~= limbs@.skip(lo + 1));
            assert(rest[0] == x);
            let p = pow2(32 * lo as nat);
            lemma_pow2_adds(32 * lo as nat, 32);
            lemma2_to64();
            assert((32 * lo as nat + 32) as nat == 32 * (lo + 1) as nat);
            let q = pow2(32 * (lo + 1) as nat);
            let v = limbs_value(limbs@.skip(lo + 1));
            assert(limbs_value(rest) * p + low == v * q + (x * p + low)) by (nonlinear_arith)
                requires
                    limbs_value(rest) == x + 0x1_0000_0000 * v,
                    q == p * 0x1_0000_0000,
            ;
            assert(x * p + low < q) by (nonlinear_arith)
                requires
                    x < 0x1_0000_0000,
                    low < p,
                    q == p * 0x1_0000_0000,
            ;
            lemma_pow2_pos(32 * lo as nat);
            assert((x * p + low != 0) == (x != 0 || low != 0)) by (nonlinear_arith)
                requires
                    p >= 1,
            ;
            low = (x * p + low) as nat;
        }
        sticky = sticky || x != 0;
        lo += 1;
    }
    // the value of the kept limbs, most significant first
    let mut m: u128 = 0;
    let mut top: usize = len;
    proof {
        assert(limbs@.subrange(len as int, len as int) =~= Seq::<u32>::empty());
    }
    while top > lo
        invariant
            lo <= top <= len,
            len == limbs@.len(),
            len - lo <= 3,
            m as nat == limbs_value(limbs@.subrange(top as int, len as int)),
            m < pow2(32 * (len - top) as nat),
        decreases top,
    {
        let ghost sub = limbs@.subrange(top - 1, len as int);
        proof {
            assert(sub.drop_first() =~= limbs@.subrange(top as int, len as int));
            assert(sub[0] == limbs@[top - 1]);
            lemma_limbs_bound(sub);
            lemma2_to64();
            lemma2_to64_rest();
            lemma_pow2_adds(64, 32);
            if len - top + 1 < 3 {
                lemma_pow2_le((32 * (len - top + 1)) as nat, 96);
            }
            assert(m * 0x1_0000_0000 + limbs@[top - 1] < 0x1_0000_0000_0000_0000_0000_0000);
        }
        m = m * 0x1_0000_0000 + limbs[top - 1] as u128;
        top -= 1;
    }
    proof {
        assert(limbs@.subrange(lo as int, len as int) =~= limbs@.skip(lo as int));
        lemma2_to64();
        lemma2_to64_rest();
        lemma_pow2_adds(64, 32);
        if len - lo < 3 {
            lemma_pow2_le((32 * (len - lo)) as nat, 96);
        }
        if lo > 0 {
            assert(limbs@.skip(lo as int).len() == 3);
            assert(limbs@.skip(lo as int)[2] == limbs@[len - 1]);
            assert(limbs@.skip(lo as int).last() == limbs@.last());
            lemma_limbs_bound(limbs@.skip(lo as int));
            assert((32 * (3 - 1)) as nat == 64);
        }
    }
    if m == 0 {
        proof {
            assert(lo == 0);
            assert(pow2(32 * 0nat) == 1);
            assert(digits_value(s@) == 0);
        }
        return 0;
    }
    round_scaled(m, lo, sticky, Ghost(low))
}

} // verus!
