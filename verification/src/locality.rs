//! What one symbol takes in: twenty bytes at most, in the light of which it
//! does not matter what follows them.
//!
//! Each lemma here bounds the bits of one part of a symbol and the value that
//! comes of them, and says that `more` input behind what was enough changes
//! neither.

use vstd::arithmetic::power2::{lemma2_to64, lemma_pow2_adds, lemma_pow2_pos, lemma_pow2_unfold, pow2};
use vstd::prelude::*;

use crate::accounting::{
    lemma_bit, lemma_bit_ext, lemma_direct_bits, lemma_direct_bits_ext, lemma_tree_walk,
    lemma_twenty_bytes, lemma_within_chain, lemma_within_more, lemma_within_more_direct,
    lemma_within_nothing, taken, within,
};
use crate::coding::{bit, direct_bits, tree_walk, Coding};
use crate::symbol::{
    copied, distance, distance_rest, length, literal, literal_coder, match_symbol, matched_walk,
    next_reps, position_state, reach, rep_symbol, reverse_walk, step, symbol, tree_value, Machine,
    Outcome, Props, Symbol, ALIGN, END_POS_MODEL_INDEX, IS_MATCH, IS_REP, IS_REP0_LONG, IS_REP_G0,
    IS_REP_G1, IS_REP_G2, LEN_CHOICE, LEN_CHOICE2, LEN_CODER, LEN_HIGH, LEN_LOW,
    LEN_NUM_LOW_SYMBOLS, LITERAL, LIT_STRIDE, NUM_ALIGN_BITS, NUM_BASE_PROBS, NUM_LEN_TO_POS_STATES,
    NUM_LIT_STATES, NUM_STATES, POS_SLOT, REP_LEN_CODER, SPEC_POS, START_POS_MODEL_INDEX,
};

verus! {

proof fn lemma_tree_walk_ext(c: Coding, base: int, node: int, count: nat, more: Seq<u8>)
    requires
        c.wf(),
        0 <= base,
        1 <= node,
        (node + 1) * pow2(count) <= 2 * (c.probs.len() - base),
        tree_walk(c, base, node, count).0.lack == c.lack,
    ensures
        tree_walk(c.feed(more), base, node, count) == (
            tree_walk(c, base, node, count).0.feed(more),
            tree_walk(c, base, node, count).1,
        ),
    decreases count,
{
    if count > 0 {
        let half = pow2((count - 1) as nat);
        lemma_pow2_unfold(count);
        lemma_pow2_pos((count - 1) as nat);
        assert((node + 1) * (2 * half) == (2 * node + 2) * half) by (nonlinear_arith);
        assert((2 * node + 2) * half == 2 * ((node + 1) * half)) by (nonlinear_arith);
        assert((node + 1) * half >= node + 1) by (nonlinear_arith)
            requires
                node >= 1,
                half >= 1,
        ;
        let (c1, b) = bit(c, base + node);
        lemma_bit(c, base + node);
        let next = 2 * node + b;
        assert((next + 1) * half <= (2 * node + 2) * half) by (nonlinear_arith)
            requires
                next <= 2 * node + 1,
                half >= 1,
        ;
        lemma_tree_walk(c1, base, next, (count - 1) as nat);
        lemma_bit_ext(c, base + node, more);
        lemma_tree_walk_ext(c1, base, next, (count - 1) as nat, more);
    }
}

/// A value out of a tree.
pub proof fn lemma_tree_value(c: Coding, base: int, count: nat, more: Seq<u8>)
    requires
        c.wf(),
        0 <= base,
        base + pow2(count) <= c.probs.len(),
    ensures
        ({
            let (d, v) = tree_value(c, base, count);
            &&& within(c, d, count, 0)
            &&& 0 <= v < pow2(count)
            &&& d.lack == c.lack ==> tree_value(c.feed(more), base, count) == (d.feed(more), v)
        }),
{
    lemma_tree_walk(c, base, 1, count);
    if tree_walk(c, base, 1, count).0.lack == c.lack {
        lemma_tree_walk_ext(c, base, 1, count, more);
    }
}

/// A literal against a match byte.
pub proof fn lemma_matched_walk(
    c: Coding,
    base: int,
    mb: int,
    node: int,
    agree: bool,
    count: nat,
    more: Seq<u8>,
)
    requires
        c.wf(),
        0 <= base,
        base + 0x300 <= c.probs.len(),
        0 <= mb < 256,
        1 <= node,
        (node + 1) * pow2(count) <= 0x200,
    ensures
        ({
            let (d, v) = matched_walk(c, base, mb, node, agree, count);
            &&& within(c, d, count, 0)
            &&& node * pow2(count) <= v < (node + 1) * pow2(count)
            &&& d.lack == c.lack ==> matched_walk(c.feed(more), base, mb, node, agree, count) == (
                d.feed(more),
                v,
            )
        }),
    decreases count,
{
    lemma_within_nothing(c);
    if count == 0 {
        lemma2_to64();
    } else {
        let half = pow2((count - 1) as nat);
        lemma_pow2_unfold(count);
        lemma_pow2_pos((count - 1) as nat);
        assert(node * (2 * half) == 2 * node * half) by (nonlinear_arith);
        assert((node + 1) * (2 * half) == (2 * node + 2) * half) by (nonlinear_arith);
        assert((2 * node + 2) * half == 2 * ((node + 1) * half)) by (nonlinear_arith);
        assert((node + 1) * half >= node + 1) by (nonlinear_arith)
            requires
                node >= 1,
                half >= 1,
        ;
        let expected = mb / 128;
        let row = if agree { 0x100 * (1 + expected) } else { 0 };
        let (c1, b) = bit(c, base + row + node);
        lemma_bit(c, base + row + node);
        let next = 2 * node + b;
        assert(next * half >= 2 * node * half) by (nonlinear_arith)
            requires
                next >= 2 * node,
                half >= 1,
        ;
        assert((next + 1) * half <= (2 * node + 2) * half) by (nonlinear_arith)
            requires
                next <= 2 * node + 1,
                half >= 1,
        ;
        let rest = (count - 1) as nat;
        lemma_matched_walk(c1, base, (2 * mb) % 256, next, agree && b == expected, rest, more);
        let d = matched_walk(c, base, mb, node, agree, count).0;
        if count > 1 {
            lemma_within_chain(c, c1, d, 1, 0, rest, 0);
        }
        if d.lack == c.lack {
            lemma_bit_ext(c, base + row + node, more);
        }
    }
}

/// Bits with the least significant first.
pub proof fn lemma_reverse_walk(
    c: Coding,
    base: int,
    step: int,
    value: int,
    count: nat,
    more: Seq<u8>,
)
    requires
        c.wf(),
        0 <= base,
        0 <= value < step,
        base + step * pow2(count) <= c.probs.len(),
    ensures
        ({
            let (d, v) = reverse_walk(c, base, step, value, count);
            &&& within(c, d, count, 0)
            &&& 0 <= v < step * pow2(count)
            &&& d.lack == c.lack ==> reverse_walk(c.feed(more), base, step, value, count) == (
                d.feed(more),
                v,
            )
        }),
    decreases count,
{
    lemma_within_nothing(c);
    if count == 0 {
        lemma2_to64();
        assert(step * pow2(0) == step) by (nonlinear_arith)
            requires
                pow2(0) == 1,
        ;
    } else {
        let half = pow2((count - 1) as nat);
        lemma_pow2_unfold(count);
        lemma_pow2_pos((count - 1) as nat);
        assert(step * (2 * half) == (2 * step) * half) by (nonlinear_arith);
        assert((2 * step) * half >= 2 * step) by (nonlinear_arith)
            requires
                step >= 1,
                half >= 1,
        ;
        let (c1, b) = bit(c, base + step + value);
        lemma_bit(c, base + step + value);
        let next = value + b * step;
        assert(b * step == (if b == 1 { step } else { 0 })) by (nonlinear_arith)
            requires
                0 <= b <= 1,
        ;
        let rest = (count - 1) as nat;
        lemma_reverse_walk(c1, base, 2 * step, next, rest, more);
        let d = reverse_walk(c, base, step, value, count).0;
        if count > 1 {
            lemma_within_chain(c, c1, d, 1, 0, rest, 0);
        }
        if d.lack == c.lack {
            lemma_bit_ext(c, base + step + value, more);
        }
    }
}

/// A length.
pub proof fn lemma_length(c: Coding, base: int, pos_state: int, more: Seq<u8>)
    requires
        c.wf(),
        0 <= base,
        base + 512 <= c.probs.len(),
        0 <= pos_state < 16,
    ensures
        ({
            let (d, v) = length(c, base, pos_state);
            &&& within(c, d, 10, 0)
            &&& 0 <= v <= 271
            &&& d.lack == c.lack ==> length(c.feed(more), base, pos_state) == (d.feed(more), v)
        }),
{
    lemma2_to64();
    let low = base + LEN_LOW + 16 * pos_state;
    let d = length(c, base, pos_state).0;
    let (c1, choice) = bit(c, base + LEN_CHOICE);
    lemma_bit(c, base + LEN_CHOICE);
    if c1.lack == c.lack {
        lemma_bit_ext(c, base + LEN_CHOICE, more);
    }
    if choice == 0 {
        lemma_tree_value(c1, low, 3, more);
        lemma_within_chain(c, c1, d, 1, 0, 3, 0);
        lemma_within_more(c, d, 4, 0, 10);
    } else {
        let (c2, choice2) = bit(c1, base + LEN_CHOICE2);
        lemma_bit(c1, base + LEN_CHOICE2);
        lemma_within_chain(c, c1, c2, 1, 0, 1, 0);
        if c2.lack == c.lack {
            lemma_bit_ext(c1, base + LEN_CHOICE2, more);
        }
        if choice2 == 0 {
            lemma_tree_value(c2, low + LEN_NUM_LOW_SYMBOLS, 3, more);
            lemma_within_chain(c, c2, d, 2, 0, 3, 0);
            lemma_within_more(c, d, 5, 0, 10);
        } else {
            lemma_tree_value(c2, base + LEN_HIGH, 8, more);
            lemma_within_chain(c, c2, d, 2, 0, 8, 0);
        }
    }
}

/// The number of bits of a distance: few, or some of them without a model.
pub open spec fn distance_bits(a: Coding, b: Coding, p: nat) -> bool {
    within(a, b, p + 1, 0) || within(a, b, p, 26)
}

pub proof fn lemma_direct_bits_value(c: Coding, acc: int, count: nat)
    requires
        c.wf(),
        0 <= acc,
    ensures
        acc * pow2(count) <= direct_bits(c, acc, count).1 < (acc + 1) * pow2(count),
    decreases count,
{
    if count == 0 {
        lemma2_to64();
    } else {
        let half = pow2((count - 1) as nat);
        lemma_pow2_unfold(count);
        let (c1, b) = crate::coding::direct_bit(c);
        lemma_direct_bits(c, 0, 1);
        assert(c1 == direct_bits(c, 0, 1).0) by {
            reveal_with_fuel(direct_bits, 2);
        }
        lemma_direct_bits_value(c1, 2 * acc + b, (count - 1) as nat);
        let next = 2 * acc + b;
        assert(acc * (2 * half) <= next * half) by (nonlinear_arith)
            requires
                next >= 2 * acc,
                half >= 0,
        ;
        assert((next + 1) * half <= (acc + 1) * (2 * half)) by (nonlinear_arith)
            requires
                next <= 2 * acc + 1,
                half >= 0,
        ;
    }
}

/// What is left of a distance behind its slot.
pub proof fn lemma_distance_rest(c: Coding, slot: int, more: Seq<u8>)
    requires
        c.wf(),
        NUM_BASE_PROBS <= c.probs.len(),
        0 <= slot < 64,
    ensures
        ({
            let (d, v) = distance_rest(c, slot);
            &&& slot < START_POS_MODEL_INDEX ==> d == c
            &&& START_POS_MODEL_INDEX <= slot < END_POS_MODEL_INDEX ==> within(c, d, 5, 0)
            &&& END_POS_MODEL_INDEX <= slot ==> within(c, d, 4, 26)
            &&& 0 <= v <= 0xFFFF_FFFF
            &&& d.lack >= c.lack
            &&& slot < END_POS_MODEL_INDEX ==> v < 128
            &&& d.lack == c.lack ==> distance_rest(c.feed(more), slot) == (d.feed(more), v)
        }),
{
    lemma2_to64();
    let d = distance_rest(c, slot).0;
    if slot >= START_POS_MODEL_INDEX {
        let count = slot / 2 - 1;
        let top = 2 + slot % 2;
        if slot < END_POS_MODEL_INDEX {
            let first = top * pow2(count as nat);
            assert(1 <= count <= 5);
            let x = pow2(count as nat) as int;
            assert(1 <= x <= 32) by {
                if count == 1 {
                } else if count == 2 {
                } else if count == 3 {
                } else if count == 4 {
                } else {
                    assert(count == 5);
                }
            }
            assert(0 <= top * x <= 3 * x) by (nonlinear_arith)
                requires
                    2 <= top <= 3,
                    x >= 1,
            ;
            assert(1 * pow2(count as nat) == pow2(count as nat));
            lemma_reverse_walk(c, SPEC_POS + first, 1, 0, count as nat, more);
            lemma_within_more(c, d, count as nat, 0, 5);
        } else {
            let n = (count - NUM_ALIGN_BITS) as nat;
            let (c1, high) = direct_bits(c, top, n);
            lemma_direct_bits(c, top, n);
            lemma_direct_bits_value(c, top, n);
            lemma_direct_high(top, n, high);
            if c1.lack == c.lack {
                lemma_direct_bits_ext(c, top, n, more);
            }
            lemma_reverse_walk(c1, ALIGN as int, 1, 0, NUM_ALIGN_BITS as nat, more);
            lemma_within_chain(c, c1, d, 0, n, 4, 0);
            lemma_within_more_direct(c, d, 4, n, 26);
        }
    }
}

/// The high part of a distance.
pub proof fn lemma_direct_high(top: int, n: nat, high: int)
    requires
        2 <= top <= 3,
        n <= 26,
        top * pow2(n) <= high < (top + 1) * pow2(n),
    ensures
        0 <= high <= 0xFFF_FFFF,
{
    lemma2_to64();
    lemma_pow2_adds(n, (26 - n) as nat);
    lemma_pow2_pos((26 - n) as nat);
    lemma_pow2_pos(n);
    let x = pow2(n) as int;
    let y = pow2((26 - n) as nat) as int;
    assert(x <= x * y) by (nonlinear_arith)
        requires
            x >= 1,
            y >= 1,
    ;
    assert((top + 1) * x <= 4 * x) by (nonlinear_arith)
        requires
            top <= 3,
            x >= 1,
    ;
    assert(top * x >= 0) by (nonlinear_arith)
        requires
            top >= 0,
            x >= 1,
    ;
}

/// A fresh distance.
pub proof fn lemma_distance(c: Coding, len: int, more: Seq<u8>)
    requires
        c.wf(),
        NUM_BASE_PROBS <= c.probs.len(),
        0 <= len,
    ensures
        ({
            let (d, v) = distance(c, len);
            &&& distance_bits(c, d, 10)
            &&& 0 <= v <= 0xFFFF_FFFF
            &&& d.lack >= c.lack
            &&& d.lack == c.lack ==> distance(c.feed(more), len) == (d.feed(more), v)
        }),
{
    lemma2_to64();
    let len_state = if len < NUM_LEN_TO_POS_STATES { len } else { NUM_LEN_TO_POS_STATES - 1 };
    let base = POS_SLOT + 64 * len_state;
    lemma_tree_value(c, base, 6, more);
    let (c1, slot) = tree_value(c, base, 6);
    lemma_distance_rest(c1, slot, more);
    let d = distance_rest(c1, slot).0;
    if slot < START_POS_MODEL_INDEX {
        lemma_within_more(c, d, 6, 0, 11);
    } else if slot < END_POS_MODEL_INDEX {
        lemma_within_chain(c, c1, d, 6, 0, 5, 0);
    } else {
        lemma_within_chain(c, c1, d, 6, 0, 4, 26);
    }
}

/// The literal coders of the parameters are as many as their bits can tell
/// apart.
pub proof fn lemma_literal_coder(p: Props, hist: Seq<u8>)
    requires
        p.wf(),
    ensures
        0 <= literal_coder(p, hist) < pow2((p.lc + p.lp) as nat),
        LITERAL + LIT_STRIDE * literal_coder(p, hist) + LIT_STRIDE <= p.num_probs(),
{
    let x = pow2(p.lp as nat) as int;
    let y = pow2(p.lc as nat) as int;
    let z = pow2((8 - p.lc) as nat) as int;
    lemma2_to64();
    lemma_pow2_pos(p.lp as nat);
    lemma_pow2_pos(p.lc as nat);
    lemma_pow2_pos((8 - p.lc) as nat);
    lemma_pow2_adds(p.lc as nat, (8 - p.lc) as nat);
    lemma_pow2_adds(p.lc as nat, p.lp as nat);
    let prev: int = if hist.len() > 0 { hist.last() as int } else { 0 };
    let q = prev / z;
    assert(0 <= q < y) by (nonlinear_arith)
        requires
            q == prev / z,
            0 <= prev < 256,
            y * z == 256,
            z >= 1,
    ;
    let r = hist.len() as int % x;
    assert(0 <= r < x);
    assert(0 <= r * y + q < y * x) by (nonlinear_arith)
        requires
            0 <= r <= x - 1,
            0 <= q < y,
            y >= 1,
    ;
}

/// A literal.
pub proof fn lemma_literal(p: Props, m: Machine, c: Coding, more: Seq<u8>)
    requires
        p.wf(),
        m.wf(p),
        c.wf(),
        c.probs.len() == p.num_probs(),
    ensures
        ({
            let (d, v) = literal(p, m, c);
            &&& within(c, d, 8, 0)
            &&& 0 <= v < 256
            &&& d.lack == c.lack ==> literal(p, m.feed(more), c.feed(more)) == (d.feed(more), v)
        }),
{
    lemma2_to64();
    lemma_literal_coder(p, m.hist);
    let base = LITERAL + LIT_STRIDE * literal_coder(p, m.hist);
    if m.state < NUM_LIT_STATES {
        lemma_tree_value(c, base, 8, more);
    } else {
        let mb = crate::symbol::byte_back(m.hist, p.dict, m.reps[0] - 1) as int;
        lemma_matched_walk(c, base, mb, 1, true, 8, more);
    }
}

/// A copy from one of the last distances.
pub proof fn lemma_rep_symbol(c: Coding, state: int, pos_state: int, more: Seq<u8>)
    requires
        c.wf(),
        NUM_BASE_PROBS <= c.probs.len(),
        0 <= state < NUM_STATES,
        0 <= pos_state < 16,
    ensures
        ({
            let (d, s) = rep_symbol(c, state, pos_state);
            &&& within(c, d, 13, 0)
            &&& match s {
                Symbol::ShortRep => true,
                Symbol::Rep(i, len) => i <= 3 && 2 <= len <= 273,
                _ => false,
            }
            &&& d.lack == c.lack ==> rep_symbol(c.feed(more), state, pos_state) == (
                d.feed(more),
                s,
            )
        }),
{
    let d = rep_symbol(c, state, pos_state).0;
    let (c1, g0) = bit(c, IS_REP_G0 + state);
    lemma_bit(c, IS_REP_G0 + state);
    if c1.lack == c.lack {
        lemma_bit_ext(c, IS_REP_G0 + state, more);
    }
    if g0 == 0 {
        let i = IS_REP0_LONG + 16 * pos_state + state;
        let (c2, long) = bit(c1, i);
        lemma_bit(c1, i);
        lemma_within_chain(c, c1, c2, 1, 0, 1, 0);
        if c2.lack == c.lack {
            lemma_bit_ext(c1, i, more);
        }
        if long == 0 {
            lemma_within_more(c, d, 2, 0, 13);
        } else {
            lemma_length(c2, REP_LEN_CODER as int, pos_state, more);
            lemma_within_chain(c, c2, d, 2, 0, 10, 0);
            lemma_within_more(c, d, 12, 0, 13);
        }
    } else {
        let (c2, g1) = bit(c1, IS_REP_G1 + state);
        lemma_bit(c1, IS_REP_G1 + state);
        lemma_within_chain(c, c1, c2, 1, 0, 1, 0);
        if c2.lack == c.lack {
            lemma_bit_ext(c1, IS_REP_G1 + state, more);
        }
        if g1 == 0 {
            lemma_length(c2, REP_LEN_CODER as int, pos_state, more);
            lemma_within_chain(c, c2, d, 2, 0, 10, 0);
            lemma_within_more(c, d, 12, 0, 13);
        } else {
            let (c3, g2) = bit(c2, IS_REP_G2 + state);
            lemma_bit(c2, IS_REP_G2 + state);
            lemma_within_chain(c, c2, c3, 2, 0, 1, 0);
            if c3.lack == c.lack {
                lemma_bit_ext(c2, IS_REP_G2 + state, more);
            }
            lemma_length(c3, REP_LEN_CODER as int, pos_state, more);
            lemma_within_chain(c, c3, d, 3, 0, 10, 0);
        }
    }
}

/// A copy from a fresh distance, or the end of the payload.
pub proof fn lemma_match_symbol(c: Coding, pos_state: int, more: Seq<u8>)
    requires
        c.wf(),
        NUM_BASE_PROBS <= c.probs.len(),
        0 <= pos_state < 16,
    ensures
        ({
            let (d, s) = match_symbol(c, pos_state);
            &&& distance_bits(c, d, 20)
            &&& d.lack >= c.lack
            &&& match s {
                Symbol::EndMarker => true,
                Symbol::Match(dist, len) => dist < 0xFFFF_FFFF && 2 <= len <= 273,
                _ => false,
            }
            &&& d.lack == c.lack ==> match_symbol(c.feed(more), pos_state) == (d.feed(more), s)
        }),
{
    lemma_length(c, LEN_CODER as int, pos_state, more);
    let (c1, len) = length(c, LEN_CODER as int, pos_state);
    lemma_distance(c1, len, more);
    let (c2, dist) = distance(c1, len);
    if within(c1, c2, 11, 0) {
        lemma_within_chain(c, c1, c2, 10, 0, 11, 0);
    } else {
        lemma_within_chain(c, c1, c2, 10, 0, 10, 26);
    }
}

/// The position state fits the tables.
pub proof fn lemma_position_state(p: Props, hist: Seq<u8>)
    requires
        p.wf(),
    ensures
        0 <= position_state(p, hist) < pow2(p.pb as nat) <= 16,
{
    lemma2_to64();
    lemma_pow2_pos(p.pb as nat);
    lemma_pow2_adds(p.pb as nat, (4 - p.pb) as nat);
    lemma_pow2_pos((4 - p.pb) as nat);
    let x = pow2(p.pb as nat) as int;
    let y = pow2((4 - p.pb) as nat) as int;
    assert(x <= 16) by (nonlinear_arith)
        requires
            x * y == 16,
            x >= 1,
            y >= 1,
    ;
}

/// What a symbol may hold.
pub open spec fn symbol_wf(s: Symbol) -> bool {
    match s {
        Symbol::Rep(i, len) => i <= 3 && 2 <= len <= 273,
        Symbol::Match(dist, len) => dist < 0xFFFF_FFFF && 2 <= len <= 273,
        _ => true,
    }
}

/// The next symbol.
pub proof fn lemma_symbol(p: Props, m: Machine, more: Seq<u8>)
    requires
        p.wf(),
        m.wf(p),
    ensures
        ({
            let (d, s) = symbol(p, m);
            &&& d.wf()
            &&& d.probs.len() == m.coding.probs.len()
            &&& 0 <= taken(m.coding, d) <= 20
            &&& d.input.len() <= m.coding.input.len()
            &&& d.lack >= m.coding.lack
            &&& d.lack > m.coding.lack ==> d.input.len() == 0
            &&& symbol_wf(s)
            &&& d.lack == m.coding.lack ==> symbol(p, m.feed(more)) == (d.feed(more), s)
        }),
{
    reveal(symbol);
    let pos_state = position_state(p, m.hist);
    lemma_position_state(p, m.hist);
    lemma_pow2_pos((p.lc + p.lp) as nat);
    let (d, s) = symbol(p, m);
    let i = IS_MATCH + 16 * pos_state + m.state;
    let (c1, is_match) = bit(m.coding, i);
    lemma_bit(m.coding, i);
    if c1.lack == m.coding.lack {
        lemma_bit_ext(m.coding, i, more);
    }
    if is_match == 0 {
        lemma_literal(p, m, c1, more);
        lemma_within_chain(m.coding, c1, d, 1, 0, 8, 0);
        lemma_twenty_bytes(m.coding, d, 9, 0);
    } else {
        let (c2, is_rep) = bit(c1, IS_REP + m.state);
        lemma_bit(c1, IS_REP + m.state);
        lemma_within_chain(m.coding, c1, c2, 1, 0, 1, 0);
        if c2.lack == m.coding.lack {
            lemma_bit_ext(c1, IS_REP + m.state, more);
        }
        if is_rep == 0 {
            lemma_match_symbol(c2, pos_state, more);
            if within(c2, d, 21, 0) {
                lemma_within_chain(m.coding, c2, d, 2, 0, 21, 0);
                lemma_twenty_bytes(m.coding, d, 23, 0);
            } else {
                lemma_within_chain(m.coding, c2, d, 2, 0, 20, 26);
                lemma_twenty_bytes(m.coding, d, 22, 26);
            }
        } else {
            lemma_rep_symbol(c2, m.state as int, pos_state, more);
            lemma_within_chain(m.coding, c2, d, 2, 0, 13, 0);
            lemma_twenty_bytes(m.coding, d, 15, 0);
        }
    }
}

/// A copy keeps what was there and adds its length.
pub proof fn lemma_copied(hist: Seq<u8>, dist: int, len: nat)
    requires
        0 <= dist < hist.len(),
    ensures
        copied(hist, dist, len).len() == hist.len() + len,
        hist.is_prefix_of(copied(hist, dist, len)),
    decreases len,
{
    if len > 0 {
        lemma_copied(hist, dist, (len - 1) as nat);
    }
}

/// A copy can be made in two parts.
pub proof fn lemma_copied_parts(hist: Seq<u8>, dist: int, a: nat, b: nat)
    ensures
        copied(copied(hist, dist, a), dist, b) == copied(hist, dist, a + b),
    decreases b,
{
    if b > 0 {
        lemma_copied_parts(hist, dist, a, (b - 1) as nat);
    }
}

/// One symbol takes in twenty bytes at most, keeps the data before it, adds at
/// least a byte where it is carried out, and does not depend on what follows
/// the bytes it takes in.
pub proof fn lemma_step(p: Props, m: Machine, more: Seq<u8>)
    requires
        p.wf(),
        m.wf(p),
    ensures
        ({
            let (n, outcome) = step(p, m);
            &&& n.wf(p)
            &&& 0 <= taken(m.coding, n.coding) <= 20
            &&& n.coding.input.len() <= m.coding.input.len()
            &&& n.coding.lack >= m.coding.lack
            &&& n.coding.lack > m.coding.lack ==> n.coding.input.len() == 0
            &&& m.hist.is_prefix_of(n.hist)
            &&& outcome == Outcome::Done ==> n.hist.len() > m.hist.len()
            &&& outcome != Outcome::Done ==> n.hist == m.hist
            &&& n.coding.lack == m.coding.lack ==> step(p, m.feed(more)) == (n.feed(more), outcome)
        }),
{
    lemma_symbol(p, m, more);
    let (c, s) = symbol(p, m);
    let reps = next_reps(m.reps, s);
    let dist = reps[0] - 1;
    match s {
        Symbol::Rep(_, len) => {
            if dist < reach(m.hist, p.dict) {
                lemma_copied(m.hist, dist, len as nat);
            }
        },
        Symbol::Match(_, len) => {
            if dist < reach(m.hist, p.dict) {
                lemma_copied(m.hist, dist, len as nat);
            }
        },
        Symbol::ShortRep => {
            if dist < reach(m.hist, p.dict) {
                lemma_copied(m.hist, dist, 1);
            }
        },
        _ => {},
    }
}

} // verus!
