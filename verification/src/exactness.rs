//! What a symbol does not take in, it does not need.
//!
//! Each lemma here takes a part of a symbol that was read with `more` behind
//! its input and left all of `more` alone. Without it, no byte is found
//! lacking.

use vstd::arithmetic::power2::{lemma2_to64, lemma_pow2_pos, lemma_pow2_unfold, pow2};
use vstd::prelude::*;

use crate::accounting::{
    lemma_bit, lemma_bit_ext, lemma_direct_bits, lemma_direct_bits_ext, lemma_normalize_ext,
    lemma_tree_walk,
};
use crate::coding::{bit, direct_bit, direct_bits, normalize, tree_walk, Coding};
use crate::locality::{
    lemma_distance, lemma_distance_rest, lemma_length, lemma_literal, lemma_literal_coder,
    lemma_match_symbol, lemma_matched_walk, lemma_position_state, lemma_rep_symbol,
    lemma_reverse_walk, lemma_step, lemma_tree_value,
};
use crate::symbol::{
    byte_back, distance, distance_rest, length, literal, literal_coder, match_symbol,
    matched_walk, position_state, rep_symbol, reverse_walk, step, symbol, tree_value, Machine,
    Props, ALIGN, END_POS_MODEL_INDEX, IS_MATCH, IS_REP, IS_REP0_LONG, IS_REP_G0, IS_REP_G1,
    IS_REP_G2, LEN_CHOICE, LEN_CHOICE2, LEN_CODER, LEN_HIGH, LEN_LOW, LEN_NUM_LOW_SYMBOLS,
    LITERAL, LIT_STRIDE, NUM_ALIGN_BITS, NUM_BASE_PROBS, NUM_LEN_TO_POS_STATES, NUM_LIT_STATES,
    NUM_STATES, POS_SLOT, REP_LEN_CODER, SPEC_POS, START_POS_MODEL_INDEX,
};

verus! {

/// The coder went from `c` to `d` and left `more` alone, with no byte lacking.
pub open spec fn spared(c: Coding, d: Coding, more: Seq<u8>) -> bool {
    &&& d.lack == c.lack
    &&& d.input.len() >= more.len()
}

pub proof fn lemma_normalize_exact(c: Coding, more: Seq<u8>)
    requires
        spared(c, normalize(c.feed(more)), more),
    ensures
        normalize(c).lack == c.lack,
        normalize(c.feed(more)) == normalize(c).feed(more),
{
    lemma_normalize_ext(c, more);
}

proof fn lemma_bit_exact(c: Coding, i: int, more: Seq<u8>)
    requires
        spared(c, bit(c.feed(more), i).0, more),
    ensures
        bit(c, i).0.lack == c.lack,
        bit(c.feed(more), i) == (bit(c, i).0.feed(more), bit(c, i).1),
{
    lemma_normalize_exact(c, more);
    lemma_bit_ext(c, i, more);
}

proof fn lemma_direct_bits_exact(c: Coding, acc: int, count: nat, more: Seq<u8>)
    requires
        c.wf(),
        spared(c, direct_bits(c.feed(more), acc, count).0, more),
    ensures
        direct_bits(c, acc, count).0.lack == c.lack,
    decreases count,
{
    if count > 0 {
        let (e1, b) = direct_bit(c.feed(more));
        let rest = (count - 1) as nat;
        assert(e1 == direct_bits(c.feed(more), 0, 1).0) by {
            reveal_with_fuel(direct_bits, 2);
        }
        lemma_direct_bits(c.feed(more), 0, 1);
        lemma_direct_bits(e1, 2 * acc + b, rest);
        lemma_normalize_exact(c, more);
        let (c1, b1) = direct_bit(c);
        assert(c1 == direct_bits(c, 0, 1).0) by {
            reveal_with_fuel(direct_bits, 2);
        }
        lemma_direct_bits(c, 0, 1);
        assert(e1 =~= c1.feed(more));
        lemma_direct_bits_exact(c1, 2 * acc + b, rest, more);
    }
}

proof fn lemma_tree_walk_exact(c: Coding, base: int, node: int, count: nat, more: Seq<u8>)
    requires
        c.wf(),
        0 <= base,
        1 <= node,
        (node + 1) * pow2(count) <= 2 * (c.probs.len() - base),
        spared(c, tree_walk(c.feed(more), base, node, count).0, more),
    ensures
        tree_walk(c, base, node, count).0.lack == c.lack,
    decreases count,
{
    if count > 0 {
        let half = pow2((count - 1) as nat);
        lemma_pow2_unfold(count);
        lemma_pow2_pos((count - 1) as nat);
        assert((node + 1) * (2 * half) == (2 * node + 2) * half) by (nonlinear_arith);
        assert((2 * node + 2) * half == 2 * ((node + 1) * half)) by (nonlinear_arith);
        assert((node + 1) * half >= node + 1) by (nonlinear_arith)
            requires
                node >= 1,
                half >= 1,
        ;
        let (e1, b) = bit(c.feed(more), base + node);
        lemma_bit(c.feed(more), base + node);
        lemma_bit(c, base + node);
        let next = 2 * node + b;
        assert((next + 1) * half <= (2 * node + 2) * half) by (nonlinear_arith)
            requires
                next <= 2 * node + 1,
                half >= 1,
        ;
        let rest = (count - 1) as nat;
        lemma_tree_walk(e1, base, next, rest);
        lemma_bit_exact(c, base + node, more);
        lemma_tree_walk_exact(bit(c, base + node).0, base, next, rest, more);
    }
}

proof fn lemma_tree_value_exact(c: Coding, base: int, count: nat, more: Seq<u8>)
    requires
        c.wf(),
        0 <= base,
        base + pow2(count) <= c.probs.len(),
        spared(c, tree_value(c.feed(more), base, count).0, more),
    ensures
        tree_value(c, base, count).0.lack == c.lack,
{
    lemma_tree_walk_exact(c, base, 1, count, more);
}

proof fn lemma_matched_walk_exact(
    c: Coding,
    base: int,
    mb: int,
    node: int,
    agree: bool,
    count: nat,
    more: Seq<u8>,
)
    requires
        c.wf(),
        0 <= base,
        base + 0x300 <= c.probs.len(),
        0 <= mb < 256,
        1 <= node,
        (node + 1) * pow2(count) <= 0x200,
        spared(c, matched_walk(c.feed(more), base, mb, node, agree, count).0, more),
    ensures
        matched_walk(c, base, mb, node, agree, count).0.lack == c.lack,
    decreases count,
{
    if count > 0 {
        let half = pow2((count - 1) as nat);
        lemma_pow2_unfold(count);
        lemma_pow2_pos((count - 1) as nat);
        assert((node + 1) * (2 * half) == (2 * node + 2) * half) by (nonlinear_arith);
        assert((2 * node + 2) * half == 2 * ((node + 1) * half)) by (nonlinear_arith);
        assert((node + 1) * half >= node + 1) by (nonlinear_arith)
            requires
                node >= 1,
                half >= 1,
        ;
        let expected = mb / 128;
        let row = if agree { 0x100 * (1 + expected) } else { 0 };
        let i = base + row + node;
        let (e1, b) = bit(c.feed(more), i);
        lemma_bit(c.feed(more), i);
        lemma_bit(c, i);
        let next = 2 * node + b;
        assert((next + 1) * half <= (2 * node + 2) * half) by (nonlinear_arith)
            requires
                next <= 2 * node + 1,
                half >= 1,
        ;
        let rest = (count - 1) as nat;
        let go_on = agree && b == expected;
        lemma_matched_walk(e1, base, (2 * mb) % 256, next, go_on, rest, more);
        lemma_bit_exact(c, i, more);
        lemma_matched_walk_exact(bit(c, i).0, base, (2 * mb) % 256, next, go_on, rest, more);
    }
}

proof fn lemma_reverse_walk_exact(
    c: Coding,
    base: int,
    step: int,
    value: int,
    count: nat,
    more: Seq<u8>,
)
    requires
        c.wf(),
        0 <= base,
        0 <= value < step,
        base + step * pow2(count) <= c.probs.len(),
        spared(c, reverse_walk(c.feed(more), base, step, value, count).0, more),
    ensures
        reverse_walk(c, base, step, value, count).0.lack == c.lack,
    decreases count,
{
    if count > 0 {
        let half = pow2((count - 1) as nat);
        lemma_pow2_unfold(count);
        lemma_pow2_pos((count - 1) as nat);
        assert(step * (2 * half) == (2 * step) * half) by (nonlinear_arith);
        assert((2 * step) * half >= 2 * step) by (nonlinear_arith)
            requires
                step >= 1,
                half >= 1,
        ;
        let i = base + step + value;
        let (e1, b) = bit(c.feed(more), i);
        lemma_bit(c.feed(more), i);
        lemma_bit(c, i);
        let next = value + b * step;
        assert(b * step == (if b == 1 { step } else { 0 })) by (nonlinear_arith)
            requires
                0 <= b <= 1,
        ;
        let rest = (count - 1) as nat;
        lemma_reverse_walk(e1, base, 2 * step, next, rest, more);
        lemma_bit_exact(c, i, more);
        lemma_reverse_walk_exact(bit(c, i).0, base, 2 * step, next, rest, more);
    }
}

proof fn lemma_length_exact(c: Coding, base: int, pos_state: int, more: Seq<u8>)
    requires
        c.wf(),
        0 <= base,
        base + 512 <= c.probs.len(),
        0 <= pos_state < 16,
        spared(c, length(c.feed(more), base, pos_state).0, more),
    ensures
        length(c, base, pos_state).0.lack == c.lack,
{
    lemma2_to64();
    let low = base + LEN_LOW + 16 * pos_state;
    let i = base + LEN_CHOICE;
    let (e1, choice) = bit(c.feed(more), i);
    lemma_bit(c.feed(more), i);
    lemma_bit(c, i);
    let c1 = bit(c, i).0;
    if choice == 0 {
        lemma_tree_value(e1, low, 3, more);
        lemma_bit_exact(c, i, more);
        lemma_tree_value_exact(c1, low, 3, more);
    } else {
        let j = base + LEN_CHOICE2;
        let (e2, choice2) = bit(e1, j);
        lemma_bit(e1, j);
        let (low2, count): (int, nat) = if choice2 == 0 {
            (low + LEN_NUM_LOW_SYMBOLS, 3)
        } else {
            (base + LEN_HIGH, 8)
        };
        lemma_tree_value(e2, low2, count, more);
        lemma_bit_exact(c, i, more);
        lemma_bit_exact(c1, j, more);
        lemma_bit(c1, j);
        lemma_tree_value_exact(bit(c1, j).0, low2, count, more);
    }
}

proof fn lemma_distance_rest_exact(c: Coding, slot: int, more: Seq<u8>)
    requires
        c.wf(),
        NUM_BASE_PROBS <= c.probs.len(),
        0 <= slot < 64,
        spared(c, distance_rest(c.feed(more), slot).0, more),
    ensures
        distance_rest(c, slot).0.lack == c.lack,
{
    lemma2_to64();
    if slot >= START_POS_MODEL_INDEX {
        let count = slot / 2 - 1;
        let top = 2 + slot % 2;
        if slot < END_POS_MODEL_INDEX {
            let first = top * pow2(count as nat);
            assert(1 <= count <= 5);
            let x = pow2(count as nat) as int;
            assert(1 <= x <= 32) by {
                if count == 1 {
                } else if count == 2 {
                } else if count == 3 {
                } else if count == 4 {
                } else {
                    assert(count == 5);
                }
            }
            assert(0 <= top * x <= 3 * x) by (nonlinear_arith)
                requires
                    2 <= top <= 3,
                    x >= 1,
            ;
            assert(1 * pow2(count as nat) == pow2(count as nat));
            lemma_reverse_walk_exact(c, SPEC_POS + first, 1, 0, count as nat, more);
        } else {
            let n = (count - NUM_ALIGN_BITS) as nat;
            let (e1, high) = direct_bits(c.feed(more), top, n);
            lemma_direct_bits(c.feed(more), top, n);
            lemma_reverse_walk(e1, ALIGN as int, 1, 0, NUM_ALIGN_BITS as nat, more);
            lemma_direct_bits_exact(c, top, n, more);
            lemma_direct_bits_ext(c, top, n, more);
            lemma_direct_bits(c, top, n);
            let c1 = direct_bits(c, top, n).0;
            lemma_reverse_walk_exact(c1, ALIGN as int, 1, 0, NUM_ALIGN_BITS as nat, more);
        }
    }
}

proof fn lemma_distance_exact(c: Coding, len: int, more: Seq<u8>)
    requires
        c.wf(),
        NUM_BASE_PROBS <= c.probs.len(),
        0 <= len,
        spared(c, distance(c.feed(more), len).0, more),
    ensures
        distance(c, len).0.lack == c.lack,
{
    lemma2_to64();
    let len_state = if len < NUM_LEN_TO_POS_STATES { len } else { NUM_LEN_TO_POS_STATES - 1 };
    let base = POS_SLOT + 64 * len_state;
    lemma_tree_value(c.feed(more), base, 6, more);
    let (e1, slot) = tree_value(c.feed(more), base, 6);
    lemma_distance_rest(e1, slot, more);
    lemma_tree_value_exact(c, base, 6, more);
    lemma_tree_value(c, base, 6, more);
    lemma_distance_rest_exact(tree_value(c, base, 6).0, slot, more);
}

proof fn lemma_literal_exact(p: Props, m: Machine, c: Coding, more: Seq<u8>)
    requires
        p.wf(),
        m.wf(p),
        c.wf(),
        c.probs.len() == p.num_probs(),
        spared(c, literal(p, m, c.feed(more)).0, more),
    ensures
        literal(p, m, c).0.lack == c.lack,
{
    lemma2_to64();
    lemma_literal_coder(p, m.hist);
    let base = LITERAL + LIT_STRIDE * literal_coder(p, m.hist);
    if m.state < NUM_LIT_STATES {
        lemma_tree_value_exact(c, base, 8, more);
    } else {
        let mb = byte_back(m.hist, p.dict, m.reps[0] - 1) as int;
        lemma_matched_walk_exact(c, base, mb, 1, true, 8, more);
    }
}

proof fn lemma_rep_symbol_exact(c: Coding, state: int, pos_state: int, more: Seq<u8>)
    requires
        c.wf(),
        NUM_BASE_PROBS <= c.probs.len(),
        0 <= state < NUM_STATES,
        0 <= pos_state < 16,
        spared(c, rep_symbol(c.feed(more), state, pos_state).0, more),
    ensures
        rep_symbol(c, state, pos_state).0.lack == c.lack,
{
    let base = REP_LEN_CODER as int;
    let i = IS_REP_G0 + state;
    let (e1, g0) = bit(c.feed(more), i);
    lemma_bit(c.feed(more), i);
    lemma_bit(c, i);
    let c1 = bit(c, i).0;
    let j = if g0 == 0 { IS_REP0_LONG + 16 * pos_state + state } else { IS_REP_G1 + state };
    let (e2, second) = bit(e1, j);
    lemma_bit(e1, j);
    if second == 0 {
        if g0 != 0 {
            lemma_length(e2, base, pos_state, more);
        }
        lemma_bit_exact(c, i, more);
        lemma_bit_exact(c1, j, more);
        lemma_bit(c1, j);
        if g0 != 0 {
            lemma_length_exact(bit(c1, j).0, base, pos_state, more);
        }
    } else if g0 == 0 {
        lemma_length(e2, base, pos_state, more);
        lemma_bit_exact(c, i, more);
        lemma_bit_exact(c1, j, more);
        lemma_bit(c1, j);
        lemma_length_exact(bit(c1, j).0, base, pos_state, more);
    } else {
        let k = IS_REP_G2 + state;
        let (e3, g2) = bit(e2, k);
        lemma_bit(e2, k);
        lemma_length(e3, base, pos_state, more);
        lemma_bit_exact(c, i, more);
        lemma_bit_exact(c1, j, more);
        lemma_bit(c1, j);
        let c2 = bit(c1, j).0;
        lemma_bit_exact(c2, k, more);
        lemma_bit(c2, k);
        lemma_length_exact(bit(c2, k).0, base, pos_state, more);
    }
}

proof fn lemma_match_symbol_exact(c: Coding, pos_state: int, more: Seq<u8>)
    requires
        c.wf(),
        NUM_BASE_PROBS <= c.probs.len(),
        0 <= pos_state < 16,
        spared(c, match_symbol(c.feed(more), pos_state).0, more),
    ensures
        match_symbol(c, pos_state).0.lack == c.lack,
{
    let base = LEN_CODER as int;
    lemma_length(c.feed(more), base, pos_state, more);
    let (e1, len) = length(c.feed(more), base, pos_state);
    lemma_distance(e1, len, more);
    lemma_length_exact(c, base, pos_state, more);
    lemma_length(c, base, pos_state, more);
    lemma_distance_exact(length(c, base, pos_state).0, len, more);
}

proof fn lemma_symbol_exact(p: Props, m: Machine, more: Seq<u8>)
    requires
        p.wf(),
        m.wf(p),
        spared(m.coding, symbol(p, m.feed(more)).0, more),
    ensures
        symbol(p, m).0.lack == m.coding.lack,
{
    reveal(symbol);
    let c = m.coding;
    let pos_state = position_state(p, m.hist);
    lemma_position_state(p, m.hist);
    lemma_pow2_pos((p.lc + p.lp) as nat);
    let i = IS_MATCH + 16 * pos_state + m.state;
    let (e1, is_match) = bit(c.feed(more), i);
    lemma_bit(c.feed(more), i);
    lemma_bit(c, i);
    let c1 = bit(c, i).0;
    if is_match == 0 {
        lemma_literal(p, m.feed(more), e1, more);
        lemma_bit_exact(c, i, more);
        assert(literal(p, m.feed(more), e1) == literal(p, m, e1));
        lemma_literal_exact(p, m, c1, more);
    } else {
        let j = IS_REP + m.state;
        let (e2, is_rep) = bit(e1, j);
        lemma_bit(e1, j);
        if is_rep == 0 {
            lemma_match_symbol(e2, pos_state, more);
            lemma_bit_exact(c, i, more);
            lemma_bit_exact(c1, j, more);
            lemma_bit(c1, j);
            lemma_match_symbol_exact(bit(c1, j).0, pos_state, more);
        } else {
            lemma_rep_symbol(e2, m.state as int, pos_state, more);
            lemma_bit_exact(c, i, more);
            lemma_bit_exact(c1, j, more);
            lemma_bit(c1, j);
            lemma_rep_symbol_exact(bit(c1, j).0, m.state as int, pos_state, more);
        }
    }
}

/// A symbol that leaves `more` alone is the same symbol without it.
pub proof fn lemma_step_exact(p: Props, m: Machine, more: Seq<u8>)
    requires
        p.wf(),
        m.wf(p),
        spared(m.coding, step(p, m.feed(more)).0.coding, more),
    ensures
        step(p, m).0.coding.lack == m.coding.lack,
        step(p, m.feed(more)) == (step(p, m).0.feed(more), step(p, m).1),
{
    lemma_symbol_exact(p, m, more);
    lemma_step(p, m, more);
}

} // verus!
