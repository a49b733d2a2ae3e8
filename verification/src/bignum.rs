//! Unbounded natural numbers as little-endian limb vectors.
//!
//! The far-range bucket index is the least `t` with `a^p <= base^t * mid^p`;
//! the powers involved exceed any machine integer, so they are computed over
//! limb vectors.  Only the three operations the encoder needs are provided:
//! building a number from a machine word, scaling by a machine word, and
//! comparison.

use vstd::prelude::*;

verus! {

use vstd::arithmetic::power::{
    pow, lemma_pow0, lemma_pow1, lemma_pow_adds, lemma_pow_positive,
};

/// Each limb holds one base-2^64 digit.
pub const LIMB_BASE: u128 = 0x1_0000_0000_0000_0000;

/// The natural number denoted by a little-endian limb sequence.
pub closed spec fn limbs_value(s: Seq<u64>) -> int
    decreases s.len(),
{
    if s.len() == 0 {
        0
    } else {
        limbs_value(s.drop_last()) + s.last() * pow(LIMB_BASE as int, (s.len() - 1) as nat)
    }
}

pub proof fn lemma_limbs_value_nonneg(s: Seq<u64>)
    ensures
        limbs_value(s) >= 0,
    decreases s.len(),
{
    if s.len() > 0 {
        lemma_limbs_value_nonneg(s.drop_last());
        lemma_pow_positive(LIMB_BASE as int, (s.len() - 1) as nat);
        vstd::arithmetic::mul::lemma_mul_nonnegative(s.last() as int, pow(LIMB_BASE as int, (s.len() - 1) as nat));
    }
}

pub proof fn lemma_limbs_value_bound(s: Seq<u64>)
    ensures
        limbs_value(s) < pow(LIMB_BASE as int, s.len()),
    decreases s.len(),
{
    if s.len() == 0 {
        lemma_pow0(LIMB_BASE as int);
    } else {
        let b = LIMB_BASE as int;
        let n = s.len();
        lemma_limbs_value_bound(s.drop_last());
        lemma_pow_positive(b, (n - 1) as nat);
        lemma_pow_adds(b, (n - 1) as nat, 1);
        lemma_pow1(b);
        let p = pow(b, (n - 1) as nat);
        assert(s.last() * p <= (b - 1) * p) by (nonlinear_arith)
            requires
                p >= 0,
                s.last() < b,
        ;
        assert(p + (b - 1) * p == b * p) by (nonlinear_arith);
        assert(pow(b, n) == p * b);
    }
}

/// One limb appended on top adds its place value.
pub proof fn lemma_limbs_value_take_succ(s: Seq<u64>, i: int)
    requires
        0 <= i < s.len(),
    ensures
        limbs_value(s.take(i + 1)) == limbs_value(s.take(i)) + s[i] * pow(LIMB_BASE as int, i as nat),
{
    let t = s.take(i + 1);
    assert(t.drop_last() =~= s.take(i));
    assert(t.last() == s[i]);
}

/// Zero-extension on top does not change the value.
pub proof fn lemma_limbs_value_pad(s: Seq<u64>, n: int)
    requires
        s.len() <= n,
    ensures
        limbs_value(padded(s, n)) == limbs_value(s),
    decreases n - s.len(),
{
    if n == s.len() {
        assert(padded(s, n) =~= s);
    } else {
        let q = padded(s, n);
        assert(q.len() == n);
        assert(q.last() == 0);
        assert(q.drop_last() =~= padded(s, n - 1));
        lemma_limbs_value_pad(s, n - 1);
    }
}

/// `s` zero-extended on top to length `n`.
pub open spec fn padded(s: Seq<u64>, n: int) -> Seq<u64> {
    s + Seq::new((n - s.len()) as nat, |i: int| 0u64)
}

/// Equal high limbs and a smaller limb below them force a smaller value.
pub proof fn lemma_limbs_value_lt(x: Seq<u64>, y: Seq<u64>, i: int)
    requires
        x.len() == y.len(),
        0 <= i < x.len(),
        forall|j: int| i < j < x.len() ==> x[j] == y[j],
        x[i] < y[i],
    ensures
        limbs_value(x) < limbs_value(y),
    decreases x.len(),
{
    let b = LIMB_BASE as int;
    let n = x.len();
    if i == n - 1 {
        let p = pow(b, (n - 1) as nat);
        lemma_limbs_value_bound(x.drop_last());
        lemma_limbs_value_nonneg(y.drop_last());
        lemma_pow_positive(b, (n - 1) as nat);
        assert(limbs_value(x) < p + x.last() * p);
        assert(p + x.last() * p <= y.last() * p) by (nonlinear_arith)
            requires
                p > 0,
                x.last() < y.last(),
        ;
        assert(limbs_value(y) >= y.last() * p);
    } else {
        lemma_limbs_value_lt(x.drop_last(), y.drop_last(), i);
        assert(x.last() == y.last());
    }
}

/// The number `x`, as a single limb.
pub fn big_from_u64(x: u64) -> (v: Vec<u64>)
    ensures
        limbs_value(v@) == x,
{
    let v: Vec<u64> = vec![x];
    proof {
        assert(v@.drop_last() =~= Seq::<u64>::empty());
        assert(limbs_value(Seq::<u64>::empty()) == 0);
        lemma_pow0(LIMB_BASE as int);
        assert(limbs_value(v@) == 0 + x * 1);
    }
    v
}

/// Multiplies the number in place by a machine word.
pub fn big_scale(v: &mut Vec<u64>, k: u64)
    ensures
        limbs_value(final(v)@) == k * limbs_value(old(v)@),
{
    let ghost orig: Seq<u64> = v@;
    let ghost b_int: int = LIMB_BASE as int;
    let mut carry: u64 = 0;
    let mut i: usize = 0;
    proof {
        assert(orig.take(0) =~= Seq::<u64>::empty());
        assert(v@.take(0) =~= Seq::<u64>::empty());
        lemma_pow0(b_int);
    }
    while i < v.len()
        invariant
            v@.len() == orig.len(),
            0 <= i <= orig.len(),
            forall|j: int| i <= j < orig.len() ==> v@[j] == orig[j],
            limbs_value(v@.take(i as int)) + carry * pow(b_int, i as nat)
                == k * limbs_value(orig.take(i as int)),
            b_int == LIMB_BASE as int,
        decreases orig.len() - i,
    {
        let ghost pre: Seq<u64> = v@;
        proof {
            assert((v@[i as int] as int) * (k as int) + (carry as int)
                < 0x1_0000_0000_0000_0000_0000_0000_0000_0000) by (nonlinear_arith)
                requires
                    v@[i as int] < 0x1_0000_0000_0000_0000,
                    k < 0x1_0000_0000_0000_0000,
                    carry < 0x1_0000_0000_0000_0000,
            ;
        }
        let prod: u128 = (v[i] as u128) * (k as u128) + (carry as u128);
        let lo: u64 = (prod % LIMB_BASE) as u64;
        let hi: u64 = (prod / LIMB_BASE) as u64;
        v.set(i, lo);
        proof {
            let ii = i as int;
            let p = pow(b_int, i as nat);
            lemma_pow_positive(b_int, i as nat);
            assert(pow(b_int, (i + 1) as nat) == p * b_int) by {
                lemma_pow_adds(b_int, i as nat, 1);
                lemma_pow1(b_int);
            }
            assert(v@.take(ii) =~= pre.take(ii));
            lemma_limbs_value_take_succ(v@, ii);
            lemma_limbs_value_take_succ(orig, ii);
            // prod splits exactly into hi and lo digits
            assert(prod == hi * (LIMB_BASE as u128) + lo && lo < LIMB_BASE) by (nonlinear_arith)
                requires
                    hi == prod / LIMB_BASE,
                    lo == prod % LIMB_BASE,
                    LIMB_BASE > 0,
            ;
            assert(prod == orig[ii] * (k as int) + carry);
            let lv = limbs_value(pre.take(ii));
            let ov = limbs_value(orig.take(ii));
            assert(lv + carry * p == k * ov);
            assert(limbs_value(v@.take(ii + 1)) + hi * (p * b_int) == k * limbs_value(orig.take(ii + 1)))
                by (nonlinear_arith)
                requires
                    limbs_value(v@.take(ii + 1)) == lv + lo * p,
                    limbs_value(orig.take(ii + 1)) == ov + orig[ii] * p,
                    lv + carry * p == k * ov,
                    orig[ii] * (k as int) + carry == hi * b_int + lo,
                    b_int > 0,
                    p > 0,
            ;
        }
        carry = hi;
        i = i + 1;
    }
    proof {
        assert(v@.take(orig.len() as int) =~= v@);
        assert(orig.take(orig.len() as int) =~= orig);
    }
    if carry > 0 {
        let ghost pre: Seq<u64> = v@;
        v.push(carry);
        proof {
            assert(v@.drop_last() =~= pre);
            assert(v@.last() == carry);
        }
    }
}

/// Whether the first number is at most the second.
pub fn big_le(x: &Vec<u64>, y: &Vec<u64>) -> (r: bool)
    ensures
        r <==> limbs_value(x@) <= limbs_value(y@),
{
    let n: usize = if x.len() < y.len() { y.len() } else { x.len() };
    let ghost px: Seq<u64> = padded(x@, n as int);
    let ghost py: Seq<u64> = padded(y@, n as int);
    proof {
        lemma_limbs_value_pad(x@, n as int);
        lemma_limbs_value_pad(y@, n as int);
    }
    let mut i: usize = n;
    while i > 0
        invariant
            0 <= i <= n,
            px == padded(x@, n as int),
            py == padded(y@, n as int),
            px.len() == n,
            py.len() == n,
            x@.len() <= n,
            y@.len() <= n,
            limbs_value(px) == limbs_value(x@),
            limbs_value(py) == limbs_value(y@),
            forall|j: int| i <= j < n ==> px[j] == py[j],
        decreases i,
    {
        i = i - 1;
        let xi: u64 = if i < x.len() { x[i] } else { 0 };
        let yi: u64 = if i < y.len() { y[i] } else { 0 };
        proof {
            assert(px[i as int] == xi);
            assert(py[i as int] == yi);
        }
        if xi < yi {
            proof {
                lemma_limbs_value_lt(px, py, i as int);
            }
            return true;
        }
        if xi > yi {
            proof {
                lemma_limbs_value_lt(py, px, i as int);
            }
            return false;
        }
    }
    proof {
        assert(px =~= py);
    }
    true
}

/// The number `b^e`, by repeated scaling.
pub fn big_pow(b: u64, e: u64) -> (v: Vec<u64>)
    ensures
        limbs_value(v@) == pow(b as int, e as nat),
{
    let mut v: Vec<u64> = big_from_u64(1);
    let mut j: u64 = 0;
    proof {
        lemma_pow0(b as int);
    }
    while j < e
        invariant
            0 <= j <= e,
            limbs_value(v@) == pow(b as int, j as nat),
        decreases e - j,
    {
        big_scale(&mut v, b);
        proof {
            lemma_pow_adds(b as int, j as nat, 1);
            lemma_pow1(b as int);
            assert(pow(b as int, (j + 1) as nat) == pow(b as int, j as nat) * (b as int));
            assert(limbs_value(v@) == (b as int) * pow(b as int, j as nat));
            assert(limbs_value(v@) == pow(b as int, (j + 1) as nat));
        }
        j = j + 1;
    }
    v
}

} // verus!
