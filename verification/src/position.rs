//! Log-bucket relative position encoding.
//!
//! For a query position `i` and a key position `j` the raw relative position
//! is `i - j`.  With bucketing enabled, distances inside the near region
//! (at most `mid = bucket_size / 2`) are kept exact, and farther distances
//! are compressed logarithmically: the magnitude of a far bucket is
//! `mid + ceil((mid - 1) * log(d / mid) / log(top / mid))` with
//! `top = max_position - 1`, so that distances up to `top` land in buckets
//! of magnitude at most `bucket_size - 1`.  That ceiling is characterised
//! here without real arithmetic: it is the least `t` with
//! `d^(mid-1) * mid^t <= top^t * mid^(mid-1)`, and it is computed exactly
//! over limb vectors.

use vstd::prelude::*;

verus! {

use vstd::arithmetic::power::{
    pow, lemma_pow0, lemma_pow1, lemma_pow_adds, lemma_pow_positive,
    lemma_pow_distributes, lemma_pow_multiplies, lemma_pow_strictly_increases_converse,
};
use vstd::arithmetic::div_mod::{
    lemma_fundamental_div_mod, lemma_fundamental_div_mod_converse, lemma_mod_bound,
};
use vstd::arithmetic::mul::lemma_mul_nonnegative;
use vstd::math::abs;
use crate::bignum::{limbs_value, big_pow, big_le, big_scale};
use crate::tensor::{IntTensor, shape_count};

/// Largest allowed `bucket_size / 2`: the far exponent can reach about
/// `63 * mid * mid` for machine-representable distances when `top` is only
/// `mid + 1`, and this cap keeps `mid` plus that exponent within an `i64`
/// entry.
pub const MAX_BUCKET_MID: i64 = 0x1000_0000;

/// Whether bucketing is switched on at all; otherwise raw distances are used.
pub open spec fn bucketing_enabled(bucket_size: int, max_position: int) -> bool {
    bucket_size > 0 && max_position > 0
}

/// Half-width of the linear (near) region.
pub open spec fn bucket_mid(bucket_size: int) -> int {
    bucket_size / 2
}

/// A configuration under which the transform is well defined: an even bucket
/// size of at least two, a compression ratio `(max_position - 1) / mid`
/// above one (otherwise the logarithm's denominator would vanish), and a mid
/// small enough that every bucket index fits an `i64` entry.
pub open spec fn valid_bucket_config(bucket_size: int, max_position: int) -> bool {
    &&& bucket_size >= 2
    &&& bucket_size % 2 == 0
    &&& max_position >= bucket_mid(bucket_size) + 2
    &&& bucket_mid(bucket_size) <= MAX_BUCKET_MID
}

/// `t` is the far-range bucket exponent for distance `dist`: the least `t`
/// with `dist^(mid-1) * mid^t <= top^t * mid^(mid-1)`, which equals
/// `ceil((mid - 1) * log(dist / mid) / log(top / mid))` for
/// `mid < dist` and `mid < top`.
pub open spec fn is_far_exponent(dist: int, mid: int, top: int, t: int) -> bool {
    let p = (mid - 1) as nat;
    &&& 0 <= t
    &&& pow(dist, p) * pow(mid, t as nat) <= pow(top, t as nat) * pow(mid, p)
    &&& (t == 0 || pow(dist, p) * pow(mid, (t - 1) as nat) > pow(top, (t - 1) as nat) * pow(
        mid,
        p,
    ))
}

/// The far-range bucket exponent for distance `dist`.
pub open spec fn far_exponent(dist: int, mid: int, top: int) -> int {
    choose|t: int| is_far_exponent(dist, mid, top, t)
}

/// The log-bucket transform of one raw signed distance.
pub open spec fn spec_log_bucket(rel: int, bucket_size: int, max_position: int) -> int {
    let mid = bucket_mid(bucket_size);
    let top = max_position - 1;
    if -mid <= rel && rel <= mid {
        rel
    } else {
        let t = far_exponent(abs(rel) as int, mid, top);
        if rel < 0 {
            -(mid + t)
        } else {
            mid + t
        }
    }
}

/// One entry of the relative position matrix for query row `i`, key column `j`.
pub open spec fn relative_position_entry(i: int, j: int, bucket_size: int, max_position: int) -> int {
    if bucketing_enabled(bucket_size, max_position) {
        spec_log_bucket(i - j, bucket_size, max_position)
    } else {
        i - j
    }
}

/// Power is monotone in the base, for nonnegative bases.
pub proof fn lemma_pow_le_base(a: int, b: int, e: nat)
    requires
        0 <= a <= b,
    ensures
        0 <= pow(a, e) <= pow(b, e),
    decreases e,
{
    if e == 0 {
        lemma_pow0(a);
        lemma_pow0(b);
    } else {
        lemma_pow_le_base(a, b, (e - 1) as nat);
        lemma_pow_adds(a, (e - 1) as nat, 1);
        lemma_pow_adds(b, (e - 1) as nat, 1);
        lemma_pow1(a);
        lemma_pow1(b);
        let pa = pow(a, (e - 1) as nat);
        let pb = pow(b, (e - 1) as nat);
        assert(0 <= pa * a <= pb * b) by (nonlinear_arith)
            requires
                0 <= pa <= pb,
                0 <= a <= b,
        ;
    }
}

/// Power is strictly monotone in the base, for positive exponents.
pub proof fn lemma_pow_lt_base(a: int, b: int, e: nat)
    requires
        0 <= a < b,
        e >= 1,
    ensures
        pow(a, e) < pow(b, e),
{
    lemma_pow_le_base(a, b, (e - 1) as nat);
    lemma_pow_adds(a, (e - 1) as nat, 1);
    lemma_pow_adds(b, (e - 1) as nat, 1);
    lemma_pow1(a);
    lemma_pow1(b);
    lemma_pow_positive(b, (e - 1) as nat);
    let pa = pow(a, (e - 1) as nat);
    let pb = pow(b, (e - 1) as nat);
    assert(pa * a < pb * b) by (nonlinear_arith)
        requires
            0 <= pa <= pb,
            1 <= pb,
            0 <= a < b,
    ;
}

/// Two exceeds every exponent: `2^n > n`.
proof fn lemma_pow2_exceeds(n: nat)
    ensures
        pow(2, n) > n,
    decreases n,
{
    if n == 0 {
        lemma_pow0(2);
    } else {
        lemma_pow2_exceeds((n - 1) as nat);
        lemma_pow_adds(2, (n - 1) as nat, 1);
        lemma_pow1(2);
    }
}

/// The first two binomial terms bound a successor power from below:
/// `(m+1)^k >= m^k + k * m^(k-1)`.
proof fn lemma_pow_succ_base(m: int, k: nat)
    requires
        1 <= m,
        1 <= k,
    ensures
        pow(m + 1, k) >= pow(m, k) + k * pow(m, (k - 1) as nat),
    decreases k,
{
    if k == 1 {
        lemma_pow1(m + 1);
        lemma_pow1(m);
        lemma_pow0(m);
    } else {
        lemma_pow_succ_base(m, (k - 1) as nat);
        lemma_pow_adds(m + 1, (k - 1) as nat, 1);
        lemma_pow1(m + 1);
        lemma_pow_adds(m, (k - 1) as nat, 1);
        lemma_pow1(m);
        lemma_pow_adds(m, (k - 2) as nat, 1);
        lemma_pow_positive(m, (k - 2) as nat);
        lemma_pow_positive(m, (k - 1) as nat);
        let a = pow(m + 1, (k - 1) as nat);
        let b = pow(m, (k - 1) as nat);
        let c = pow(m, (k - 2) as nat);
        assert(a * (m + 1) >= (b + (k - 1) * c) * (m + 1)) by (nonlinear_arith)
            requires
                a >= b + (k - 1) * c,
                m >= 1,
        ;
        assert((b + (k - 1) * c) * (m + 1) == b * m + b + (k - 1) * (c * m) + (k - 1) * c)
            by (nonlinear_arith);
        assert((k - 1) * c >= 0) by (nonlinear_arith)
            requires
                k >= 2,
                c >= 1,
        ;
        assert(b * m + b + (k - 1) * b + (k - 1) * c >= b * m + k * b) by (nonlinear_arith)
            requires
                (k - 1) * c >= 0,
        ;
        assert(pow(m + 1, k) == a * (m + 1));
        assert(pow(m, k) == b * m);
        assert(k * pow(m, (k - 1) as nat) == k * b);
    }
}

/// The compounding step of the growth bound: `(m+1)^m >= 2 * m^m`.
proof fn lemma_pow_succ_base_doubles(m: int)
    requires
        1 <= m,
    ensures
        pow(m + 1, m as nat) >= 2 * pow(m, m as nat),
{
    lemma_pow_succ_base(m, m as nat);
    lemma_pow_adds(m, (m - 1) as nat, 1);
    lemma_pow1(m);
    assert(((m as nat) - 1) as nat == (m - 1) as nat);
    assert(pow(m, m as nat) == pow(m, (m - 1) as nat) * m);
    assert((m as nat) * pow(m, (m - 1) as nat) == pow(m, (m - 1) as nat) * m) by (nonlinear_arith)
        requires
            m >= 1,
    ;
}

/// Even the slowest admissible ratio `top / m > 1` compounds: every `m`
/// steps the power of `top` gains a factor two over the power of `m`.
proof fn lemma_pow_ratio_growth(m: int, top: int, t: nat)
    requires
        1 <= m,
        m + 1 <= top,
    ensures
        pow(2, ((t as int) / m) as nat) * pow(m, t) <= pow(top, t),
{
    let q: int = (t as int) / m;
    let r: int = (t as int) % m;
    lemma_fundamental_div_mod(t as int, m);
    lemma_mod_bound(t as int, m);
    assert(q >= 0) by (nonlinear_arith)
        requires
            t as int == m * q + r,
            0 <= r < m,
            t >= 0,
            m >= 1,
    ;
    let qn = q as nat;
    let rn = r as nat;
    let mq = (m * q) as nat;
    lemma_mul_nonnegative(m, q);
    assert(t == mq + rn);
    lemma_pow_le_base(m + 1, top, t);
    lemma_pow_adds(m + 1, mq, rn);
    lemma_pow_multiplies(m + 1, m as nat, qn);
    assert((m as nat) * qn == mq);
    lemma_pow_succ_base_doubles(m);
    lemma_pow_positive(m, m as nat);
    lemma_pow_le_base(2 * pow(m, m as nat), pow(m + 1, m as nat), qn);
    lemma_pow_distributes(2, pow(m, m as nat), qn);
    lemma_pow_multiplies(m, m as nat, qn);
    lemma_pow_le_base(m, m + 1, rn);
    lemma_pow_adds(m, mq, rn);
    lemma_pow_positive(2, qn);
    lemma_pow_positive(m, mq);
    assert(pow(m + 1, mq) >= pow(2, qn) * pow(m, mq)) by (nonlinear_arith)
        requires
            pow(m + 1, mq) == pow(pow(m + 1, m as nat), qn),
            pow(pow(m + 1, m as nat), qn) >= pow(2 * pow(m, m as nat), qn),
            pow(2 * pow(m, m as nat), qn) == pow(2, qn) * pow(pow(m, m as nat), qn),
            pow(pow(m, m as nat), qn) == pow(m, mq),
    ;
    assert(pow(2, qn) * pow(m, t) <= pow(top, t)) by (nonlinear_arith)
        requires
            pow(m + 1, t) <= pow(top, t),
            pow(m + 1, t) == pow(m + 1, mq) * pow(m + 1, rn),
            pow(m + 1, mq) >= pow(2, qn) * pow(m, mq),
            0 <= pow(m, rn) <= pow(m + 1, rn),
            pow(m, t) == pow(m, mq) * pow(m, rn),
            pow(2, qn) >= 1,
            pow(m, mq) >= 1,
    ;
}

/// A far-exponent inequality that holds at step `s` still holds at any
/// later step `t - 1`: the right side gains at least as much per step.
proof fn lemma_far_exponent_step(dist: int, mid: int, top: int, s: int, t: int)
    requires
        0 <= dist,
        1 <= mid <= top,
        0 <= s,
        s + 1 <= t,
        pow(dist, (mid - 1) as nat) * pow(mid, s as nat) <= pow(top, s as nat) * pow(
            mid,
            (mid - 1) as nat,
        ),
    ensures
        pow(dist, (mid - 1) as nat) * pow(mid, (t - 1) as nat) <= pow(top, (t - 1) as nat) * pow(
            mid,
            (mid - 1) as nat,
        ),
{
    let p = (mid - 1) as nat;
    let gap = (t - 1 - s) as nat;
    lemma_pow_adds(mid, s as nat, gap);
    lemma_pow_adds(top, s as nat, gap);
    lemma_pow_le_base(mid, top, gap);
    lemma_pow_positive(top, s as nat);
    lemma_pow_positive(mid, s as nat);
    lemma_pow_le_base(0, dist, p);
    lemma_pow_le_base(0, mid, p);
    let a = pow(dist, p);
    let ms = pow(mid, s as nat);
    let md = pow(mid, gap);
    let ts = pow(top, s as nat);
    let td = pow(top, gap);
    let z = pow(mid, p);
    assert((t - 1) as nat == s as nat + gap);
    assert(a * (ms * md) <= (ts * td) * z) by (nonlinear_arith)
        requires
            a * ms <= ts * z,
            0 <= md <= td,
            0 <= a,
            0 <= z,
            0 <= ms,
            1 <= ts,
    ;
}

/// The far exponent is unique: two exponents for one distance coincide.
pub proof fn lemma_far_exponent_unique(dist: int, mid: int, top: int, t1: int, t2: int)
    requires
        0 <= dist,
        1 <= mid <= top,
        is_far_exponent(dist, mid, top, t1),
        is_far_exponent(dist, mid, top, t2),
    ensures
        t1 == t2,
{
    if t1 < t2 {
        lemma_far_exponent_step(dist, mid, top, t1, t2);
        assert(false);
    }
    if t2 < t1 {
        lemma_far_exponent_step(dist, mid, top, t2, t1);
        assert(false);
    }
}

/// The far exponent is monotone in the distance.
pub proof fn lemma_far_exponent_monotone(d1: int, d2: int, mid: int, top: int, t1: int, t2: int)
    requires
        0 <= d1 <= d2,
        1 <= mid <= top,
        is_far_exponent(d1, mid, top, t1),
        is_far_exponent(d2, mid, top, t2),
    ensures
        t1 <= t2,
{
    let p = (mid - 1) as nat;
    if t2 < t1 {
        lemma_far_exponent_step(d2, mid, top, t2, t1);
        lemma_pow_le_base(d1, d2, p);
        lemma_pow_le_base(0, mid, (t1 - 1) as nat);
        let w = pow(mid, (t1 - 1) as nat);
        assert(pow(d1, p) * w <= pow(d2, p) * w) by (nonlinear_arith)
            requires
                0 <= pow(d1, p) <= pow(d2, p),
                0 <= w,
        ;
        assert(false);
    }
}

/// A distance no farther than `top` has an exponent of at most `mid - 1`,
/// so far buckets for distances up to `max_position - 1` stay below
/// `bucket_size`.
pub proof fn lemma_far_exponent_range(dist: int, mid: int, top: int, t: int)
    requires
        1 <= mid <= top,
        0 <= dist <= top,
        is_far_exponent(dist, mid, top, t),
    ensures
        t <= mid - 1,
{
    let p = (mid - 1) as nat;
    lemma_pow_le_base(dist, top, p);
    lemma_pow_le_base(0, mid, p);
    assert(pow(dist, p) * pow(mid, p) <= pow(top, p) * pow(mid, p)) by (nonlinear_arith)
        requires
            0 <= pow(dist, p) <= pow(top, p),
            0 <= pow(mid, p),
    ;
    if t > mid - 1 {
        lemma_far_exponent_step(dist, mid, top, mid - 1, t);
        assert(false);
    }
}

/// Below a bound that satisfies the power inequality there is a least
/// exponent satisfying it.
proof fn lemma_least_far_exponent(dist: int, mid: int, top: int, n: int)
    requires
        n >= 0,
        pow(dist, (mid - 1) as nat) * pow(mid, n as nat) <= pow(top, n as nat) * pow(
            mid,
            (mid - 1) as nat,
        ),
    ensures
        exists|t: int| is_far_exponent(dist, mid, top, t),
    decreases n,
{
    let p = (mid - 1) as nat;
    if n == 0 {
        assert(is_far_exponent(dist, mid, top, 0));
    } else if pow(dist, p) * pow(mid, (n - 1) as nat) <= pow(top, (n - 1) as nat) * pow(mid, p) {
        lemma_least_far_exponent(dist, mid, top, n - 1);
    } else {
        assert(is_far_exponent(dist, mid, top, n));
    }
}

/// Every distance beyond the near region has a far exponent.
pub proof fn lemma_far_exponent_exists(dist: int, mid: int, top: int)
    requires
        1 <= mid,
        mid + 1 <= top,
        mid < dist,
    ensures
        is_far_exponent(dist, mid, top, far_exponent(dist, mid, top)),
{
    let p = (mid - 1) as nat;
    lemma_pow_positive(dist, p);
    let cap = pow(dist, p);
    let n: int = mid * cap;
    assert(n >= 1) by (nonlinear_arith)
        requires
            mid >= 1,
            cap >= 1,
            n == mid * cap,
    ;
    lemma_pow_ratio_growth(mid, top, n as nat);
    assert(n == cap * mid + 0) by (nonlinear_arith)
        requires
            n == mid * cap,
    ;
    lemma_fundamental_div_mod_converse(n, mid, cap, 0);
    lemma_pow2_exceeds(cap as nat);
    lemma_pow_positive(mid, n as nat);
    lemma_pow_positive(mid, p);
    assert(pow(dist, p) * pow(mid, n as nat) <= pow(top, n as nat) * pow(mid, p))
        by (nonlinear_arith)
        requires
            cap == pow(dist, p),
            pow(2, cap as nat) * pow(mid, n as nat) <= pow(top, n as nat),
            cap < pow(2, cap as nat),
            pow(mid, n as nat) >= 1,
            pow(mid, p) >= 1,
            cap >= 1,
    ;
    lemma_least_far_exponent(dist, mid, top, n);
    let t = far_exponent(dist, mid, top);
    assert(is_far_exponent(dist, mid, top, t)) by {
        assert(exists|u: int| is_far_exponent(dist, mid, top, u));
    }
}

/// Distances inside the near region keep their exact raw value.
pub proof fn lemma_log_bucket_near_exact(rel: int, bucket_size: int, max_position: int)
    requires
        valid_bucket_config(bucket_size, max_position),
        -bucket_mid(bucket_size) <= rel <= bucket_mid(bucket_size),
    ensures
        spec_log_bucket(rel, bucket_size, max_position) == rel,
{
}

/// Sign antisymmetry: negating the raw distance negates the bucket value.
pub proof fn lemma_log_bucket_antisymmetric(rel: int, bucket_size: int, max_position: int)
    requires
        valid_bucket_config(bucket_size, max_position),
    ensures
        spec_log_bucket(-rel, bucket_size, max_position) == -spec_log_bucket(
            rel,
            bucket_size,
            max_position,
        ),
{
    assert(abs(-rel) == abs(rel));
}

/// Log compression preserves ordering: for non-negative raw distances the
/// bucket value is non-decreasing in the distance (for negative ones the
/// mirrored statement follows from sign antisymmetry).
pub proof fn lemma_log_bucket_monotone(rel1: int, rel2: int, bucket_size: int, max_position: int)
    requires
        valid_bucket_config(bucket_size, max_position),
        0 <= rel1 <= rel2,
    ensures
        0 <= spec_log_bucket(rel1, bucket_size, max_position) <= spec_log_bucket(
            rel2,
            bucket_size,
            max_position,
        ),
{
    let mid = bucket_mid(bucket_size);
    let top = max_position - 1;
    if rel2 <= mid {
        // both near: values are the raw distances themselves
    } else {
        lemma_far_exponent_exists(rel2, mid, top);
        let t2 = far_exponent(abs(rel2) as int, mid, top);
        assert(abs(rel2) == rel2);
        if rel1 <= mid {
            assert(spec_log_bucket(rel2, bucket_size, max_position) == mid + t2);
        } else {
            lemma_far_exponent_exists(rel1, mid, top);
            let t1 = far_exponent(abs(rel1) as int, mid, top);
            assert(abs(rel1) == rel1);
            lemma_far_exponent_monotone(rel1, rel2, mid, top, t1, t2);
        }
    }
}

/// The mirrored ordering for non-positive raw distances: the bucket value is
/// still non-decreasing in the raw distance, so the bucket magnitude is
/// non-decreasing in the absolute distance.
pub proof fn lemma_log_bucket_monotone_negative(
    rel1: int,
    rel2: int,
    bucket_size: int,
    max_position: int,
)
    requires
        valid_bucket_config(bucket_size, max_position),
        rel1 <= rel2 <= 0,
    ensures
        spec_log_bucket(rel1, bucket_size, max_position) <= spec_log_bucket(
            rel2,
            bucket_size,
            max_position,
        ) <= 0,
{
    lemma_log_bucket_antisymmetric(rel1, bucket_size, max_position);
    lemma_log_bucket_antisymmetric(rel2, bucket_size, max_position);
    lemma_log_bucket_monotone(-rel2, -rel1, bucket_size, max_position);
}

/// The bounded range of the compression: distances up to `max_position - 1`
/// land in buckets of magnitude at most `bucket_size - 1`.
pub proof fn lemma_log_bucket_range(rel: int, bucket_size: int, max_position: int)
    requires
        valid_bucket_config(bucket_size, max_position),
        -(max_position - 1) <= rel <= max_position - 1,
    ensures
        -(bucket_size - 1) <= spec_log_bucket(rel, bucket_size, max_position) <= bucket_size - 1,
{
    let mid = bucket_mid(bucket_size);
    let top = max_position - 1;
    if -mid <= rel <= mid {
        // near: the raw value itself, and mid <= bucket_size - 1
    } else {
        let d = abs(rel) as int;
        lemma_far_exponent_exists(d, mid, top);
        let t = far_exponent(d, mid, top);
        lemma_far_exponent_range(d, mid, top, t);
    }
}

/// With bucketing disabled the matrix holds the raw signed distances, for
/// every pair of positions.
pub proof fn lemma_relative_position_disabled(i: int, j: int, bucket_size: int, max_position: int)
    requires
        !bucketing_enabled(bucket_size, max_position),
    ensures
        relative_position_entry(i, j, bucket_size, max_position) == i - j,
{
}

/// Whether a bucket parameter pair is in the transform's domain; lets a
/// caller reject a bad configuration before any bucket is computed.
pub fn bucket_config_is_valid(bucket_size: i64, max_position: i64) -> (r: bool)
    ensures
        r == valid_bucket_config(bucket_size as int, max_position as int),
{
    if bucket_size < 2 || bucket_size % 2 != 0 {
        false
    } else {
        let mid: i64 = bucket_size / 2;
        mid <= MAX_BUCKET_MID && max_position >= mid + 2
    }
}

/// Computes the far-range bucket exponent exactly, over limb vectors.
fn compute_far_exponent(dist: u64, mid: u64, top: u64) -> (t: u64)
    requires
        1 <= mid <= MAX_BUCKET_MID as u64,
        mid < dist < 0x8000_0000_0000_0000u64,
        mid + 1 <= top,
    ensures
        is_far_exponent(dist as int, mid as int, top as int, t as int),
        t as int <= 63 * ((mid - 1) as int) * (mid as int) + mid as int,
{
    let p: u64 = mid - 1;
    let mut x = big_pow(dist, p);
    let mut y = big_pow(mid, p);
    let mut t: u64 = 0;
    proof {
        lemma_pow0(mid as int);
        lemma_pow0(top as int);
        lemma_mul_nonnegative(63 * (p as int), mid as int);
    }
    let mut le: bool = big_le(&x, &y);
    while !le
        invariant
            p == mid - 1,
            1 <= mid <= MAX_BUCKET_MID as u64,
            mid < dist < 0x8000_0000_0000_0000u64,
            mid + 1 <= top,
            limbs_value(x@) == pow(dist as int, p as nat) * pow(mid as int, t as nat),
            limbs_value(y@) == pow(top as int, t as nat) * pow(mid as int, p as nat),
            le <==> limbs_value(x@) <= limbs_value(y@),
            t == 0 || pow(dist as int, p as nat) * pow(mid as int, (t - 1) as nat) > pow(
                top as int,
                (t - 1) as nat,
            ) * pow(mid as int, p as nat),
            t as int <= 63 * (p as int) * (mid as int) + mid as int,
        decreases 63 * (p as int) * (mid as int) + mid as int - t,
    {
        proof {
            let di = dist as int;
            let m = mid as int;
            let tp = top as int;
            let pn = p as nat;
            // the loop runs only in the far regime, where p >= 1
            if p == 0 {
                lemma_pow0(di);
                lemma_pow0(m);
                lemma_pow_le_base(m, tp, t as nat);
                assert(pow(di, pn) * pow(m, t as nat) <= pow(tp, t as nat) * pow(m, pn))
                    by (nonlinear_arith)
                    requires
                        pow(di, pn) == 1,
                        pow(m, pn) == 1,
                        pow(m, t as nat) <= pow(tp, t as nat),
                ;
                assert(false);
            }
            // bound the exponent: every mid steps the right side gains a
            // factor two, and the left side is below 2^(63 p)
            let q: int = (t as int) / m;
            let r: int = (t as int) % m;
            lemma_fundamental_div_mod(t as int, m);
            lemma_mod_bound(t as int, m);
            assert(q >= 0) by (nonlinear_arith)
                requires
                    t as int == m * q + r,
                    0 <= r < m,
                    t >= 0,
                    m >= 1,
            ;
            lemma_pow_ratio_growth(m, tp, t as nat);
            let a = pow(di, pn);
            let mt = pow(m, t as nat);
            let yt = pow(tp, t as nat);
            let z = pow(m, pn);
            lemma_pow_positive(m, t as nat);
            lemma_pow_positive(m, pn);
            lemma_pow_positive(2, q as nat);
            assert(pow(2, q as nat) < a) by (nonlinear_arith)
                requires
                    a * mt > yt * z,
                    pow(2, q as nat) * mt <= yt,
                    mt >= 1,
                    z >= 1,
                    pow(2, q as nat) >= 1,
            ;
            lemma_pow_lt_base(di, 0x8000_0000_0000_0000, pn);
            lemma_pow_multiplies(2, 63, pn);
            vstd::arithmetic::power2::lemma_pow2(63);
            vstd::arithmetic::power2::lemma2_to64_rest();
            assert(pow(2, (63 * p) as nat) == pow(0x8000_0000_0000_0000, pn));
            assert(pow(2, q as nat) < pow(2, (63 * p) as nat));
            lemma_pow_strictly_increases_converse(2, q as nat, (63 * p) as nat);
            assert((t as int) < 63 * (p as int) * m) by (nonlinear_arith)
                requires
                    t as int == m * q + r,
                    0 <= r < m,
                    q <= 63 * (p as int) - 1,
                    m >= 1,
            ;
        }
        big_scale(&mut x, mid);
        big_scale(&mut y, top);
        proof {
            let di = dist as int;
            let m = mid as int;
            let tp = top as int;
            let pn = p as nat;
            let a = pow(di, pn);
            let mt = pow(m, t as nat);
            let yt = pow(tp, t as nat);
            let z = pow(m, pn);
            lemma_pow_adds(m, t as nat, 1);
            lemma_pow1(m);
            lemma_pow_adds(tp, t as nat, 1);
            lemma_pow1(tp);
            assert(m * (a * mt) == a * (mt * m)) by (nonlinear_arith);
            assert(tp * (yt * z) == (yt * tp) * z) by (nonlinear_arith);
            // the new counter value stays well below the machine word
            assert((t as int) + 1 <= 0xffff_ffff_ffff_ffff) by (nonlinear_arith)
                requires
                    (t as int) < 63 * (p as int) * m,
                    0 <= p as int <= 0xfff_ffff,
                    1 <= m <= 0x1000_0000,
            ;
        }
        t = t + 1;
        le = big_le(&x, &y);
    }
    t
}

/// The log-bucket transform of one raw signed distance.
pub fn log_bucket(rel: i64, bucket_size: i64, max_position: i64) -> (v: i64)
    requires
        rel > i64::MIN,
        valid_bucket_config(bucket_size as int, max_position as int),
    ensures
        v as int == spec_log_bucket(rel as int, bucket_size as int, max_position as int),
{
    let mid: i64 = bucket_size / 2;
    if -mid <= rel && rel <= mid {
        rel
    } else {
        let dist: i64 = if rel < 0 { -rel } else { rel };
        let top: i64 = max_position - 1;
        let t: u64 = compute_far_exponent(dist as u64, mid as u64, top as u64);
        proof {
            assert(mid as int + t as int <= 0x7fff_ffff_ffff_ffff) by (nonlinear_arith)
                requires
                    t as int <= 63 * (mid as int - 1) * (mid as int) + mid as int,
                    1 <= mid as int <= 0x1000_0000,
            ;
        }
        let magnitude: i64 = mid + (t as i64);
        proof {
            let a = abs(rel as int) as int;
            assert(a == dist as int);
            assert(is_far_exponent(a, mid as int, top as int, t as int));
            let u = far_exponent(a, mid as int, top as int);
            assert(is_far_exponent(a, mid as int, top as int, u)) by {
                assert(is_far_exponent(a, mid as int, top as int, t as int));
            }
            lemma_far_exponent_unique(a, mid as int, top as int, u, t as int);
        }
        if rel < 0 {
            -magnitude
        } else {
            magnitude
        }
    }
}

/// Applies the log-bucket transform to every entry of a raw distance tensor.
pub fn make_log_bucket_position(rel: &IntTensor, bucket_size: i64, max_position: i64) -> (r:
    IntTensor)
    requires
        rel.wf(),
        valid_bucket_config(bucket_size as int, max_position as int),
        forall|n: int| 0 <= n < rel.elems().len() ==> #[trigger] rel.elems()[n] > i64::MIN,
    ensures
        r.wf(),
        r.dims() == rel.dims(),
        r.elems().len() == rel.elems().len(),
        forall|n: int| 0 <= n < rel.elems().len() ==> #[trigger] r.elems()[n] as int
            == spec_log_bucket(rel.elems()[n] as int, bucket_size as int, max_position as int),
{
    let len: usize = rel.flat_len();
    let mut data: Vec<i64> = Vec::new();
    let mut n: usize = 0;
    while n < len
        invariant
            n <= len,
            len == rel.elems().len(),
            rel.wf(),
            valid_bucket_config(bucket_size as int, max_position as int),
            forall|k: int| 0 <= k < rel.elems().len() ==> #[trigger] rel.elems()[k] > i64::MIN,
            data@.len() == n,
            forall|k: int| 0 <= k < n ==> #[trigger] data@[k] as int
                == spec_log_bucket(rel.elems()[k] as int, bucket_size as int, max_position as int),
        decreases len - n,
    {
        let v: i64 = log_bucket(rel.flat_at(n), bucket_size, max_position);
        data.push(v);
        n = n + 1;
    }
    let shape: Vec<usize> = rel.dims_vec();
    IntTensor::from_parts(shape, data)
}

/// Raw relative position held at flat offset `n` of a matrix with `k` columns.
spec fn raw_entry_at(n: int, k: int) -> int {
    n / k - n % k
}

/// Builds the relative position matrix for a query length and a key length,
/// with shape `(1, query_size, key_size)`; entry `(0, i, j)` is the bucketed
/// signed distance between query position `i` and key position `j`, or the
/// raw distance `i - j` when bucketing is disabled.
pub fn build_relative_position(
    query_size: usize,
    key_size: usize,
    bucket_size: i64,
    max_position: i64,
) -> (r: IntTensor)
    requires
        1 <= query_size,
        1 <= key_size,
        query_size as int <= i64::MAX as int,
        key_size as int <= i64::MAX as int,
        (query_size as int) * (key_size as int) <= usize::MAX as int,
        bucketing_enabled(bucket_size as int, max_position as int) ==> valid_bucket_config(
            bucket_size as int,
            max_position as int,
        ),
    ensures
        r.wf(),
        r.dims() == seq![1usize, query_size, key_size],
        forall|i: int, j: int| 0 <= i < query_size && 0 <= j < key_size ==> r.index3(0, i, j)
            == relative_position_entry(i, j, bucket_size as int, max_position as int),
{
    let mut data: Vec<i64> = Vec::new();
    let mut i: usize = 0;
    while i < query_size
        invariant
            i <= query_size,
            1 <= key_size,
            query_size as int <= i64::MAX as int,
            key_size as int <= i64::MAX as int,
            data@.len() == i * key_size,
            forall|n: int| 0 <= n < data@.len() ==> #[trigger] data@[n] as int
                == raw_entry_at(n, key_size as int),
        decreases query_size - i,
    {
        let mut j: usize = 0;
        while j < key_size
            invariant
                i < query_size,
                j <= key_size,
                1 <= key_size,
                query_size as int <= i64::MAX as int,
                key_size as int <= i64::MAX as int,
                data@.len() == i * key_size + j,
                forall|n: int| 0 <= n < data@.len() ==> #[trigger] data@[n] as int
                    == raw_entry_at(n, key_size as int),
            decreases key_size - j,
        {
            let v: i64 = (i as i64) - (j as i64);
            data.push(v);
            proof {
                lemma_fundamental_div_mod_converse(
                    (i as int) * (key_size as int) + (j as int),
                    key_size as int,
                    i as int,
                    j as int,
                );
            }
            j = j + 1;
        }
        proof {
            assert((i + 1) * (key_size as int) == i * (key_size as int) + key_size)
                by (nonlinear_arith);
        }
        i = i + 1;
    }
    let shape: Vec<usize> = vec![query_size, key_size];
    let ghost dv: Seq<i64> = data@;
    let ghost sv: Seq<usize> = shape@;
    proof {
        let s_1 = sv.skip(1);
        let s_2 = s_1.skip(1);
        assert(s_2 =~= Seq::<usize>::empty());
        assert(shape_count(s_2) == 1);
        assert(shape_count(s_1) == (key_size as int) * 1);
        assert(shape_count(sv) == (query_size as int) * ((key_size as int) * 1));
        assert((query_size as int) * ((key_size as int) * 1) == (query_size as int) * (
        key_size as int)) by (nonlinear_arith);
    }
    let raw = IntTensor::from_parts(shape, data);
    let enabled: bool = bucket_size > 0 && max_position > 0;
    let flat = if enabled {
        proof {
            assert forall|n: int| 0 <= n < raw.elems().len() implies #[trigger] raw.elems()[n]
                > i64::MIN by {
                assert(raw.elems()[n] as int == raw_entry_at(n, key_size as int));
            }
        }
        make_log_bucket_position(&raw, bucket_size, max_position)
    } else {
        raw
    };
    proof {
        assert(flat.wf());
        assert(flat.dims() == sv);
        assert(flat.elems().len() == dv.len());
        assert(forall|n: int| 0 <= n < dv.len() ==> #[trigger] flat.elems()[n] as int == (if enabled {
            spec_log_bucket(dv[n] as int, bucket_size as int, max_position as int)
        } else {
            dv[n] as int
        }));
    }
    let r = flat.unsqueeze(0);
    proof {
        assert(r.dims() =~= seq![1usize, query_size, key_size]);
        assert forall|i2: int, j2: int| 0 <= i2 < query_size && 0 <= j2 < key_size implies r.index3(
            0,
            i2,
            j2,
        ) == relative_position_entry(i2, j2, bucket_size as int, max_position as int) by {
            let ks = key_size as int;
            let n = i2 * ks + j2;
            assert(0 <= n && n < (query_size as int) * ks) by (nonlinear_arith)
                requires
                    0 <= i2 < query_size as int,
                    0 <= j2 < ks,
                    1 <= ks,
                    n == i2 * ks + j2,
            ;
            lemma_fundamental_div_mod_converse(n, ks, i2, j2);
            assert(raw_entry_at(n, ks) == i2 - j2);
            assert(dv[n] as int == i2 - j2);
            assert((0 * r.dims()[1] + i2) * r.dims()[2] + j2 == n) by (nonlinear_arith)
                requires
                    n == i2 * ks + j2,
                    r.dims()[2] == ks,
            ;
            assert(r.elems()[n] == flat.elems()[n]);
        }
    }
    r
}

} // verus!


