//! How many bytes a symbol can take in, and why the bytes behind those do not
//! matter to it.
//!
//! Every bit shrinks the range by a bounded factor and every byte taken in
//! multiplies it by 256, so the bits of a symbol bound its bytes. A bit
//! against a probability divides the range by less than 67, and one without a
//! model by less than 129/64.

use vstd::arithmetic::power::{lemma_pow0, lemma_pow1, lemma_pow_adds, lemma_pow_positive, pow};
use vstd::arithmetic::power2::{lemma2_to64, lemma_pow2_pos, lemma_pow2_unfold, pow2};
use vstd::prelude::*;

use crate::coding::{
    bit, bound, direct_bit, direct_bits, normalize, prob_down, prob_up, probs_wf, tree_walk,
    Coding, TOP,
};

verus! {

/// How many bytes the coder wanted on the way from `a` to `b`.
pub open spec fn taken(a: Coding, b: Coding) -> int {
    a.input.len() - b.input.len() + b.lack - a.lack
}

/// The factor by which `p` bits against probabilities and `d` bits without a
/// model shrink a range at most, times `64^d`.
pub open spec fn shrink(p: nat, d: nat) -> int {
    pow(67, p) * pow(129, d)
}

/// The factor by which `k` bytes widen a range, times `64^d`.
pub open spec fn widen(k: nat, d: nat) -> int {
    pow(256, k) * pow(64, d)
}

/// The coder went from `a` to `b` by at most `p` bits against probabilities
/// and `d` bits without a model, the last of them against a probability.
pub open spec fn within(a: Coding, b: Coding, p: nat, d: nat) -> bool {
    &&& taken(a, b) >= 0
    &&& b.input.len() <= a.input.len()
    &&& b.lack >= a.lack
    &&& b.lack > a.lack ==> b.input.len() == 0
    &&& b.wf()
    &&& b.probs.len() == a.probs.len()
    &&& b.range * shrink(p, d) >= widen(taken(a, b) as nat, d) * a.range
    &&& p >= 1 ==> 0x1_0000_0000 * shrink((p - 1) as nat, d) >= widen(taken(a, b) as nat, d)
        * a.range
}

proof fn lemma_shrink_adds(p1: nat, d1: nat, p2: nat, d2: nat)
    ensures
        shrink(p1 + p2, d1 + d2) == shrink(p1, d1) * shrink(p2, d2),
        shrink(p1, d1) >= 1,
{
    lemma_pow_adds(67, p1, p2);
    lemma_pow_adds(129, d1, d2);
    lemma_pow_positive(67, p1);
    lemma_pow_positive(129, d1);
    let (a, b, c, d) = (pow(67, p1), pow(67, p2), pow(129, d1), pow(129, d2));
    assert((a * b) * (c * d) == (a * c) * (b * d)) by (nonlinear_arith);
    assert(a * c >= 1) by (nonlinear_arith)
        requires
            a >= 1,
            c >= 1,
    ;
}

proof fn lemma_widen_adds(k1: nat, d1: nat, k2: nat, d2: nat)
    ensures
        widen(k1 + k2, d1 + d2) == widen(k1, d1) * widen(k2, d2),
        widen(k1, d1) >= 1,
{
    lemma_pow_adds(256, k1, k2);
    lemma_pow_adds(64, d1, d2);
    lemma_pow_positive(256, k1);
    lemma_pow_positive(64, d1);
    let (a, b, c, d) = (pow(256, k1), pow(256, k2), pow(64, d1), pow(64, d2));
    assert((a * b) * (c * d) == (a * c) * (b * d)) by (nonlinear_arith);
    assert(a * c >= 1) by (nonlinear_arith)
        requires
            a >= 1,
            c >= 1,
    ;
}

/// Two stretches of bits, one behind the other.
pub proof fn lemma_within_chain(a: Coding, b: Coding, c: Coding, p1: nat, d1: nat, p2: nat, d2: nat)
    requires
        within(a, b, p1, d1),
        within(b, c, p2, d2),
        p2 >= 1 || p1 == 0,
    ensures
        within(a, c, p1 + p2, d1 + d2),
{
    let k1 = taken(a, b) as nat;
    let k2 = taken(b, c) as nat;
    lemma_shrink_adds(p1, d1, p2, d2);
    lemma_widen_adds(k1, d1, k2, d2);
    lemma_widen_adds(k2, d2, 0, 0);
    lemma_shrink_adds(p2, d2, 0, 0);
    assert(taken(a, c) == k1 + k2);
    lemma_chain(
        a.range as int,
        b.range as int,
        c.range as int,
        shrink(p1, d1),
        widen(k1, d1),
        shrink(p2, d2),
        widen(k2, d2),
    );
    if p2 >= 1 {
        let p3 = (p2 - 1) as nat;
        lemma_shrink_adds(p1, d1, p3, d2);
        lemma_shrink_adds(p3, d2, 0, 0);
        assert((p1 + p2 - 1) as nat == p1 + p3);
        lemma_chain(
            a.range as int,
            b.range as int,
            0x1_0000_0000,
            shrink(p1, d1),
            widen(k1, d1),
            shrink(p3, d2),
            widen(k2, d2),
        );
    }
}

proof fn lemma_chain(a: int, b: int, c: int, s1: int, w1: int, s2: int, w2: int)
    requires
        a >= 0,
        s1 >= 1,
        s2 >= 1,
        w1 >= 1,
        w2 >= 1,
        b * s1 >= w1 * a,
        c * s2 >= w2 * b,
    ensures
        c * (s1 * s2) >= (w1 * w2) * a,
{
    assert((c * s2) * s1 >= (w2 * b) * s1) by (nonlinear_arith)
        requires
            c * s2 >= w2 * b,
            s1 >= 1,
    ;
    assert(w2 * (b * s1) >= w2 * (w1 * a)) by (nonlinear_arith)
        requires
            b * s1 >= w1 * a,
            w2 >= 1,
    ;
    assert((c * s2) * s1 == c * (s1 * s2)) by (nonlinear_arith);
    assert((w2 * b) * s1 == w2 * (b * s1)) by (nonlinear_arith);
    assert(w2 * (w1 * a) == (w1 * w2) * a) by (nonlinear_arith);
}

/// Fewer bits shrink the range less.
pub proof fn lemma_within_more(a: Coding, b: Coding, p: nat, d: nat, p2: nat)
    requires
        within(a, b, p, d),
        1 <= p <= p2,
    ensures
        within(a, b, p2, d),
{
    let e = (p2 - p) as nat;
    lemma_shrink_adds(p, d, e, 0);
    lemma_shrink_adds((p - 1) as nat, d, e, 0);
    lemma_shrink_adds(e, 0, 0, 0);
    assert(((p - 1) as nat + e) as nat == (p2 - 1) as nat);
    let s = shrink(e, 0);
    let t = shrink(p, d);
    let r = b.range as int;
    assert(r * (t * s) >= r * t) by (nonlinear_arith)
        requires
            t >= 1,
            s >= 1,
            r >= 0,
    ;
    let u = shrink((p - 1) as nat, d);
    assert(u * s >= u) by (nonlinear_arith)
        requires
            u >= 1,
            s >= 1,
    ;
}

/// Fewer bits without a model shrink the range less.
pub proof fn lemma_within_more_direct(a: Coding, b: Coding, p: nat, d: nat, d2: nat)
    requires
        within(a, b, p, d),
        d <= d2,
    ensures
        within(a, b, p, d2),
{
    let e = (d2 - d) as nat;
    let k = taken(a, b) as nat;
    lemma_direct_slack(e);
    lemma_shrink_adds(p, d, 0, e);
    lemma_widen_adds(k, d, 0, e);
    lemma_shrink_adds(0, e, 0, 0);
    lemma_widen_adds(0, e, 0, 0);
    let s = shrink(0, e);
    let w = widen(0, e);
    lemma_scale(b.range as int, a.range as int, shrink(p, d), widen(k, d), s, w);
    if p >= 1 {
        lemma_shrink_adds((p - 1) as nat, d, 0, e);
        lemma_scale(0x1_0000_0000, a.range as int, shrink((p - 1) as nat, d), widen(k, d), s, w);
    }
}

proof fn lemma_scale(r: int, a: int, x: int, y: int, s: int, w: int)
    requires
        r * x >= y * a,
        y * a >= 0,
        s >= w >= 1,
    ensures
        r * (x * s) >= (y * w) * a,
{
    assert((r * x) * s >= (y * a) * w) by (nonlinear_arith)
        requires
            r * x >= y * a,
            y * a >= 0,
            s >= w >= 1,
    ;
    assert((r * x) * s == r * (x * s)) by (nonlinear_arith);
    assert((y * a) * w == (y * w) * a) by (nonlinear_arith);
}

proof fn lemma_direct_slack(e: nat)
    ensures
        shrink(0, e) >= widen(0, e),
    decreases e,
{
    lemma_pow0(67);
    lemma_pow0(256);
    lemma_pow0(129);
    lemma_pow0(64);
    if e > 0 {
        lemma_direct_slack((e - 1) as nat);
        lemma_pow_adds(129, 1, (e - 1) as nat);
        lemma_pow_adds(64, 1, (e - 1) as nat);
        lemma_pow1(129);
        lemma_pow1(64);
        lemma_pow_positive(64, (e - 1) as nat);
    }
}

/// A symbol, at up to 22 bits against probabilities and 26 without, or up to
/// 23 against probabilities alone, takes in twenty bytes at most.
pub proof fn lemma_twenty_bytes(a: Coding, b: Coding, p: nat, d: nat)
    requires
        a.wf(),
        within(a, b, p, d),
        1 <= p <= 22 && d <= 26 || 1 <= p <= 23 && d == 0,
    ensures
        taken(a, b) <= 20,
{
    let k = taken(a, b) as nat;
    if k >= 21 {
        let (q, f): (nat, nat) = if d == 0 { (23, 0) } else { (22, 26) };
        lemma_within_more_direct(a, b, p, d, f);
        lemma_within_more(a, b, p, f, q);
        lemma_widen_adds(21, f, (k - 21) as nat, 0);
        lemma_widen_adds((k - 21) as nat, 0, 0, 0);
        let s = shrink((q - 1) as nat, f);
        let w = widen(21, f);
        let x = widen((k - 21) as nat, 0);
        let r = a.range as int;
        assert((w * x) * r >= w * r) by (nonlinear_arith)
            requires
                x >= 1,
                w >= 1,
                r >= 0,
        ;
        assert(w * (67 * r) >= w * 0x100_0000) by (nonlinear_arith)
            requires
                67 * r >= 0x100_0000,
                w >= 1,
        ;
        assert(w * (67 * r) == 67 * (w * r)) by (nonlinear_arith);
        assert(21 + (k - 21) as nat == k);
        assert(widen(k, f) == w * x);
        assert(0x1_0000_0000 * s >= widen(k, f) * a.range);
        assert(67 * (0x1_0000_0000 * s) >= w * 0x100_0000);
        lemma_constants();
        if d == 0 {
            assert(s == shrink(22, 0));
            assert(w == widen(21, 0));
        } else {
            assert(s == shrink(21, 26));
            assert(w == widen(21, 26));
        }
    }
}

proof fn lemma_constants()
    ensures
        0x43_0000_0000 * shrink(21, 26) < widen(21, 26) * 0x100_0000,
        0x43_0000_0000 * shrink(22, 0) < widen(21, 0) * 0x100_0000,
{
    lemma_pow0(129);
    lemma_pow0(64);
    lemma_pow1(67);
    lemma_pow_adds(67, 1, 1);
    assert(pow(67, 2) == 0x1189);
    lemma_pow_adds(67, 2, 2);
    assert(pow(67, 4) == 0x1337b51);
    lemma_pow_adds(67, 4, 4);
    assert(pow(67, 8) == 0x17150ffacefa1);
    lemma_pow_adds(67, 8, 8);
    assert(pow(67, 16) == 0x214ca9ab1563de0d59ea60341);
    lemma_pow_adds(67, 16, 4);
    assert(pow(67, 20) == 0x27fef9d6f1892c0a4c807e6dd0a4291);
    lemma_pow_adds(67, 20, 1);
    assert(pow(67, 21) == 0xa77bb634136e686b205a116bd9af6bf3);
    lemma_pow_adds(67, 21, 1);
    assert(pow(67, 22) == 0x2bd560afa115e5540977928f39f8e94099);
    lemma_pow1(129);
    lemma_pow_adds(129, 1, 1);
    assert(pow(129, 2) == 0x4101);
    lemma_pow_adds(129, 2, 2);
    assert(pow(129, 4) == 0x10818201);
    lemma_pow_adds(129, 4, 4);
    assert(pow(129, 8) == 0x11071c467070401);
    lemma_pow_adds(129, 8, 8);
    assert(pow(129, 16) == 0x121f1f3e9e88a9fdda8f2061e0801);
    lemma_pow_adds(129, 16, 8);
    assert(pow(129, 24) == 0x13491ed67205d4ec7ed7c174efb872c42d91d450c01);
    lemma_pow_adds(129, 24, 2);
    assert(pow(129, 26) == 0x4e5a41d91c9ed15e12146f67252c4dc4256347a5514d01);
    lemma_pow1(256);
    lemma_pow_adds(256, 1, 1);
    assert(pow(256, 2) == 0x10000);
    lemma_pow_adds(256, 2, 2);
    assert(pow(256, 4) == 0x100000000);
    lemma_pow_adds(256, 4, 4);
    assert(pow(256, 8) == 0x10000000000000000);
    lemma_pow_adds(256, 8, 8);
    assert(pow(256, 16) == 0x100000000000000000000000000000000);
    lemma_pow_adds(256, 16, 4);
    assert(pow(256, 20) == 0x10000000000000000000000000000000000000000);
    lemma_pow_adds(256, 20, 1);
    assert(pow(256, 21) == 0x1000000000000000000000000000000000000000000);
    lemma_pow1(64);
    lemma_pow_adds(64, 1, 1);
    assert(pow(64, 2) == 0x1000);
    lemma_pow_adds(64, 2, 2);
    assert(pow(64, 4) == 0x1000000);
    lemma_pow_adds(64, 4, 4);
    assert(pow(64, 8) == 0x1000000000000);
    lemma_pow_adds(64, 8, 8);
    assert(pow(64, 16) == 0x1000000000000000000000000);
    lemma_pow_adds(64, 16, 8);
    assert(pow(64, 24) == 0x1000000000000000000000000000000000000);
    lemma_pow_adds(64, 24, 2);
    assert(pow(64, 26) == 0x1000000000000000000000000000000000000000);
    assert(shrink(21, 26) == 0x3342be16601492f68be414e6bafcc850c548cd995579c14e6150dd42fe76101a8a5c5f640a82f3);
    assert(widen(21, 26) == 0x1000000000000000000000000000000000000000000000000000000000000000000000000000000000);
    assert(shrink(22, 0) == 0x2bd560afa115e5540977928f39f8e94099);
    assert(widen(21, 0) == 0x1000000000000000000000000000000000000000000);
}

/// The coder as it stands.
pub proof fn lemma_within_nothing(c: Coding)
    requires
        c.wf(),
    ensures
        within(c, c, 0, 0),
{
    lemma_pow0(67);
    lemma_pow0(129);
    lemma_pow0(256);
    lemma_pow0(64);
    assert(shrink(0, 0) == 1);
    assert(widen(0, 0) == 1);
    lemma_times(c.range as int, shrink(0, 0), 1);
    lemma_times(c.range as int, widen(0, 0), 1);
    assert(taken(c, c) == 0);
    assert(c.range * shrink(0, 0) == c.range * 1);
    assert(widen(0, 0) * c.range == 1 * c.range);
    assert(c.range * 1 == c.range) by (nonlinear_arith);
    assert(1 * c.range == c.range) by (nonlinear_arith);
}

proof fn lemma_times(r: int, s: int, n: int)
    requires
        s == n,
    ensures
        r * s == r * n,
        s * r == n * r,
{
}

/// A probability stays between the two values where adaptation stops.
proof fn lemma_prob_moves(prob: u16)
    requires
        31 <= prob <= 2017,
    ensures
        31 <= prob_up(prob) <= 2017,
        31 <= prob_down(prob) <= 2017,
{
}

/// A bit leaves more than one part in 67 of a range above `TOP`.
proof fn lemma_bound(range: u32, prob: u16)
    requires
        range >= TOP,
        31 <= prob <= 2017,
    ensures
        0 < bound(range, prob) < range,
        67 * bound(range, prob) >= range,
        67 * (range - bound(range, prob)) >= range,
{
    let q = range as int / 2048;
    let p = prob as int;
    assert(q * p >= 31 * q) by (nonlinear_arith)
        requires
            q >= 0,
            p >= 31,
    ;
    assert(q * p <= 2017 * q) by (nonlinear_arith)
        requires
            q >= 0,
            p <= 2017,
    ;
}

/// Normalising leaves a range above `TOP`, and the same bytes to be had.
pub proof fn lemma_normalize(c: Coding)
    requires
        c.wf(),
    ensures
        ({
            let n = normalize(c);
            &&& TOP <= n.range
            &&& n.probs == c.probs
            &&& 0 <= taken(c, n) <= 1
            &&& n.range == (if taken(c, n) == 1 { 256 * c.range } else { c.range as int })
            &&& n.input.len() <= c.input.len()
            &&& n.lack >= c.lack
            &&& n.lack > c.lack ==> n.input.len() == 0
        }),
{
}

pub proof fn lemma_normalize_ext(c: Coding, more: Seq<u8>)
    requires
        normalize(c).lack == c.lack,
    ensures
        normalize(c.feed(more)) == normalize(c).feed(more),
{
    if c.range < TOP {
        assert((c.input + more).drop_first() =~= c.input.drop_first() + more);
    }
}

/// The weight of one bit, as `within` counts it.
proof fn lemma_within_one(a: Coding, n: Coding, b: Coding, p: nat, d: nat)
    requires
        a.wf(),
        n == normalize(a),
        b.input == n.input,
        b.lack == n.lack,
        b.wf(),
        b.probs.len() == a.probs.len(),
        p == 1 && d == 0 && 67 * b.range >= n.range || p == 0 && d == 1 && 129 * b.range >= 64
            * n.range,
    ensures
        within(a, b, p, d),
{
    lemma_normalize(a);
    lemma_pow0(67);
    lemma_pow0(129);
    lemma_pow0(256);
    lemma_pow0(64);
    lemma_pow1(67);
    lemma_pow1(129);
    lemma_pow1(256);
    lemma_pow1(64);
    let k = taken(a, b) as nat;
    assert(k == taken(a, n));
    if k == 0 {
        assert(widen(k, d) == (if d == 0 { 1int } else { 64 }));
    } else {
        assert(widen(k, d) == (if d == 0 { 256int } else { 16384 }));
    }
    assert(shrink(p, d) == (if d == 0 { 67int } else { 129 }));
    assert(p >= 1 ==> shrink((p - 1) as nat, d) == 1);
    let r = a.range as int;
    if d == 0 {
        lemma_times(b.range as int, shrink(p, d), 67);
        lemma_times(r, widen(k, d), if k == 0 { 1 } else { 256 });
    } else {
        lemma_times(b.range as int, shrink(p, d), 129);
        lemma_times(r, widen(k, d), if k == 0 { 64 } else { 16384 });
    }
}

/// One bit against a probability.
pub proof fn lemma_bit(c: Coding, i: int)
    requires
        c.wf(),
        0 <= i < c.probs.len(),
    ensures
        within(c, bit(c, i).0, 1, 0),
        0 <= bit(c, i).1 <= 1,
{
    let n = normalize(c);
    lemma_normalize(c);
    lemma_prob_moves(n.probs[i]);
    lemma_bound(n.range, n.probs[i]);
    let b = bit(c, i).0;
    assert(probs_wf(b.probs));
    lemma_within_one(c, n, b, 1, 0);
}

pub proof fn lemma_bit_ext(c: Coding, i: int, more: Seq<u8>)
    requires
        bit(c, i).0.lack == c.lack,
    ensures
        bit(c.feed(more), i) == (bit(c, i).0.feed(more), bit(c, i).1),
{
    lemma_normalize_ext(c, more);
}

proof fn lemma_direct_bit(c: Coding)
    requires
        c.wf(),
    ensures
        within(c, direct_bit(c).0, 0, 1),
        0 <= direct_bit(c).1 <= 1,
{
    let n = normalize(c);
    lemma_normalize(c);
    let b = direct_bit(c).0;
    lemma_within_one(c, n, b, 0, 1);
}

/// Bits without a model.
pub proof fn lemma_direct_bits(c: Coding, acc: int, count: nat)
    requires
        c.wf(),
    ensures
        within(c, direct_bits(c, acc, count).0, 0, count),
    decreases count,
{
    lemma_within_nothing(c);
    if count > 0 {
        let (c1, b) = direct_bit(c);
        lemma_direct_bit(c);
        lemma_direct_bits(c1, 2 * acc + b, (count - 1) as nat);
        lemma_within_chain(
            c,
            c1,
            direct_bits(c, acc, count).0,
            0,
            1,
            0,
            (count - 1) as nat,
        );
    }
}

pub proof fn lemma_direct_bits_ext(c: Coding, acc: int, count: nat, more: Seq<u8>)
    requires
        c.wf(),
        direct_bits(c, acc, count).0.lack == c.lack,
    ensures
        direct_bits(c.feed(more), acc, count) == (
            direct_bits(c, acc, count).0.feed(more),
            direct_bits(c, acc, count).1,
        ),
    decreases count,
{
    if count > 0 {
        let (c1, b) = direct_bit(c);
        lemma_direct_bit(c);
        lemma_direct_bits(c1, 2 * acc + b, (count - 1) as nat);
        lemma_normalize_ext(c, more);
        lemma_direct_bits_ext(c1, 2 * acc + b, (count - 1) as nat, more);
    }
}

/// Bits down a tree.
pub proof fn lemma_tree_walk(c: Coding, base: int, node: int, count: nat)
    requires
        c.wf(),
        0 <= base,
        1 <= node,
        (node + 1) * pow2(count) <= 2 * (c.probs.len() - base),
    ensures
        within(c, tree_walk(c, base, node, count).0, count, 0),
        node * pow2(count) <= tree_walk(c, base, node, count).1 < (node + 1) * pow2(count),
    decreases count,
{
    lemma_within_nothing(c);
    if count == 0 {
        lemma2_to64();
    } else {
        let half = pow2((count - 1) as nat);
        lemma_pow2_unfold(count);
        lemma_pow2_pos((count - 1) as nat);
        assert(node * (2 * half) == 2 * node * half) by (nonlinear_arith);
        assert((node + 1) * (2 * half) == (2 * node + 2) * half) by (nonlinear_arith);
        assert((2 * node + 2) * half == 2 * ((node + 1) * half)) by (nonlinear_arith);
        assert((node + 1) * half >= node + 1) by (nonlinear_arith)
            requires
                node >= 1,
                half >= 1,
        ;
        let (c1, b) = bit(c, base + node);
        lemma_bit(c, base + node);
        let next = 2 * node + b;
        assert(next * half >= 2 * node * half) by (nonlinear_arith)
            requires
                next >= 2 * node,
                half >= 1,
        ;
        assert((next + 1) * half <= (2 * node + 2) * half) by (nonlinear_arith)
            requires
                next <= 2 * node + 1,
                half >= 1,
        ;
        lemma_tree_walk(c1, base, next, (count - 1) as nat);
        if count > 1 {
            lemma_within_chain(
                c,
                c1,
                tree_walk(c, base, node, count).0,
                1,
                0,
                (count - 1) as nat,
                0,
            );
        }
    }
}

} // verus!
