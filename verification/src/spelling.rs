//! How an encoder spells symbols, and that a decoder reads them.

use vstd::arithmetic::div_mod::{
    lemma_basic_div, lemma_div_denominator, lemma_fundamental_div_mod, lemma_mod_bound,
    lemma_mod_breakdown,
};
use vstd::arithmetic::power2::{
    lemma2_to64, lemma_pow2_adds, lemma_pow2_pos, lemma_pow2_strictly_increases, lemma_pow2_unfold,
    pow2,
};
use vstd::prelude::*;

use crate::coding::{direct_bit, direct_bits, tree_walk, Coding};
use crate::encoder::{behind, decisions_wf, finds, len_base, read_at, Decision, Place, Tree};
use crate::symbol::{
    byte_back, distance, distance_rest, length, literal, literal_coder, match_symbol, matched_walk,
    position_state, rep_symbol, reverse_walk, symbol, tree_value, Machine, Props, Symbol, SPEC_POS,
};

verus! {

/// Decisions one behind the other are found one behind the other.
pub proof fn lemma_join(c: Coding, a: Seq<Decision>, b: Seq<Decision>)
    ensures
        finds(c, a + b) == (finds(c, a) && finds(behind(c, a), b)),
        behind(c, a + b) == behind(behind(c, a), b),
    decreases a.len(),
{
    if a.len() == 0 {
        assert(a + b =~= b);
    } else {
        assert((a + b).drop_first() =~= a.drop_first() + b);
        lemma_join(read_at(c, a[0].place).0, a.drop_first(), b);
    }
}

/// One decision.
pub open spec fn one(place: Place, bit: int) -> Seq<Decision> {
    seq![Decision { place, bit }]
}

proof fn lemma_one(c: Coding, place: Place, bit: int)
    ensures
        finds(c, one(place, bit)) == (read_at(c, place).1 == bit),
        behind(c, one(place, bit)) == read_at(c, place).0,
{
    reveal_with_fuel(finds, 2);
    reveal_with_fuel(behind, 2);
    assert(one(place, bit).drop_first() =~= Seq::<Decision>::empty());
}

/// One decision in front of others.
proof fn lemma_first(c: Coding, place: Place, bit: int, rest: Seq<Decision>)
    ensures
        finds(c, one(place, bit) + rest) == (read_at(c, place).1 == bit && finds(
            read_at(c, place).0,
            rest,
        )),
        behind(c, one(place, bit) + rest) == behind(read_at(c, place).0, rest),
{
    lemma_join(c, one(place, bit), rest);
    lemma_one(c, place, bit);
}

/// Bit number `i` of `v`, the least significant being number 0.
pub open spec fn nth(v: int, i: nat) -> int {
    v / pow2(i) as int % 2
}

/// The last `count` of the `total` bits of `v`, the most significant first. A node
/// stands for the bits before, with a one in front of them.
pub open spec fn spell_tree(tree: Tree, total: nat, v: int, count: nat) -> Seq<Decision>
    decreases count,
{
    if count == 0 {
        seq![]
    } else {
        one(
            Place::Node(tree, pow2((total - count) as nat) + v / pow2(count) as int),
            nth(v, (count - 1) as nat),
        ) + spell_tree(tree, total, v, (count - 1) as nat)
    }
}

/// `count` bits of `v` from bit number `done` on, the least significant first. A
/// node stands for the bits before, with a one in front of them.
pub open spec fn spell_reverse(tree: Tree, v: int, done: nat, count: nat) -> Seq<Decision>
    decreases count,
{
    if count == 0 {
        seq![]
    } else {
        one(Place::Node(tree, pow2(done) + v % pow2(done) as int), nth(v, done))
            + spell_reverse(tree, v, done + 1, (count - 1) as nat)
    }
}

/// The last `count` bits of `v` at even odds, the most significant first.
pub open spec fn spell_even(v: int, count: nat) -> Seq<Decision>
    decreases count,
{
    if count == 0 {
        seq![]
    } else {
        one(Place::Even, nth(v, (count - 1) as nat)) + spell_even(v, (count - 1) as nat)
    }
}

/// The last `count` bits of a literal `v` where `expected` is likely. As long as
/// all bits before were as expected, the odds are others by the next bit that is.
pub open spec fn spell_unlike(coder: int, expected: int, v: int, count: nat) -> Seq<Decision>
    decreases count,
{
    if count == 0 {
        seq![]
    } else {
        let node = pow2((8 - count) as nat) + v / pow2(count) as int;
        let row: int = if v / pow2(count) as int != expected / pow2(count) as int {
            0
        } else if nth(expected, (count - 1) as nat) == 0 {
            0x100
        } else {
            0x200
        };
        one(Place::Node(Tree::Literal(coder), row + node), nth(v, (count - 1) as nat))
            + spell_unlike(coder, expected, v, (count - 1) as nat)
    }
}

/// Halves.
proof fn lemma_halves(v: int, i: nat)
    requires
        0 <= v,
    ensures
        v / pow2(i) as int == 2 * (v / pow2(i + 1) as int) + nth(v, i),
        v % pow2(i + 1) as int == v % pow2(i) as int + nth(v, i) * pow2(i),
        0 <= nth(v, i) <= 1,
        v / pow2(i) as int >= 0,
        0 <= v % pow2(i) as int,
        v % (pow2(i) as int) < pow2(i),
{
    let x = pow2(i) as int;
    lemma_pow2_pos(i);
    lemma_pow2_unfold(i + 1);
    lemma_div_denominator(v, x, 2);
    assert(x * 2 == pow2(i + 1));
    lemma_mod_breakdown(v, x, 2);
    assert(v / x >= 0) by (nonlinear_arith)
        requires
            v >= 0,
            x > 0,
    ;
    lemma_fundamental_div_mod(v, x);
    assert(x * (v / x % 2) == (v / x % 2) * x) by (nonlinear_arith);
}

proof fn lemma_spelled_tree(
    c: Coding,
    tree: Tree,
    total: nat,
    v: int,
    count: nat,
)
    requires
        0 <= v < pow2(total),
        count <= total,
        finds(c, spell_tree(tree, total, v, count)),
    ensures
        tree_walk(
            c,
            tree.base(),
            pow2((total - count) as nat) + v / pow2(count) as int,
            count,
        ) == (behind(c, spell_tree(tree, total, v, count)), pow2(total) + v),
    decreases count,
{
    lemma2_to64();
    if count > 0 {
        let i = (count - 1) as nat;
        let node = pow2((total - count) as nat) + v / pow2(count) as int;
        let place = Place::Node(tree, node);
        lemma_halves(v, i);
        lemma_pow2_unfold((total - i) as nat);
        lemma_first(c, place, nth(v, i), spell_tree(tree, total, v, i));
        let c1 = read_at(c, place).0;
        assert(2 * node + nth(v, i) == pow2((total - i) as nat) + v / pow2(i) as int);
        lemma_spelled_tree(c1, tree, total, v, i);
    } else {
        assert(v / 1 == v);
    }
}

/// A number that was spelled down a tree is read.
pub proof fn lemma_tree_is_read(c: Coding, tree: Tree, total: nat, v: int)
    requires
        0 <= v < pow2(total),
        finds(c, spell_tree(tree, total, v, total)),
    ensures
        tree_value(c, tree.base(), total) == (behind(c, spell_tree(tree, total, v, total)), v),
{
    lemma2_to64();
    lemma_pow2_pos(total);
    assert(v / pow2(total) as int == 0) by {
        lemma_basic_div(v, pow2(total) as int);
    }
    lemma_spelled_tree(c, tree, total, v, total);
}

/// A number that was spelled the least significant bit first is read.
pub proof fn lemma_reverse_is_read(c: Coding, tree: Tree, v: int, done: nat, count: nat)
    requires
        0 <= v,
        finds(c, spell_reverse(tree, v, done, count)),
    ensures
        reverse_walk(c, tree.base(), pow2(done) as int, v % pow2(done) as int, count) == (
            behind(c, spell_reverse(tree, v, done, count)),
            v % pow2(done + count) as int,
        ),
    decreases count,
{
    if count > 0 {
        let place = Place::Node(tree, pow2(done) + v % pow2(done) as int);
        lemma_halves(v, done);
        lemma_pow2_unfold(done + 1);
        lemma_first(c, place, nth(v, done), spell_reverse(tree, v, done + 1, (count - 1) as nat));
        lemma_reverse_is_read(read_at(c, place).0, tree, v, done + 1, (count - 1) as nat);
    }
}

/// A number that was spelled at even odds is read behind another.
pub proof fn lemma_even_is_read(c: Coding, acc: int, v: int, count: nat)
    requires
        0 <= v,
        finds(c, spell_even(v, count)),
    ensures
        direct_bits(c, acc, count) == (
            behind(c, spell_even(v, count)),
            acc * pow2(count) + v % pow2(count) as int,
        ),
    decreases count,
{
    lemma2_to64();
    if count > 0 {
        let i = (count - 1) as nat;
        let b = nth(v, i);
        lemma_halves(v, i);
        lemma_pow2_unfold(count);
        lemma_first(c, Place::Even, b, spell_even(v, i));
        lemma_even_is_read(direct_bit(c).0, 2 * acc + b, v, i);
        let x = pow2(i) as int;
        assert((2 * acc + b) * x == acc * (2 * x) + b * x) by (nonlinear_arith);
    } else {
        assert(v % 1 == 0);
        assert(acc * 1 == acc);
    }
}

proof fn lemma_spelled_unlike(
    c: Coding,
    coder: int,
    expected: int,
    mb: int,
    v: int,
    count: nat,
)
    requires
        0 <= v < 0x100,
        0 <= expected < 0x100,
        count <= 8,
        mb == expected * pow2((8 - count) as nat) % 0x100,
        finds(c, spell_unlike(coder, expected, v, count)),
    ensures
        matched_walk(
            c,
            Tree::Literal(coder).base(),
            mb,
            pow2((8 - count) as nat) + v / pow2(count) as int,
            v / pow2(count) as int == expected / pow2(count) as int,
            count,
        ) == (behind(c, spell_unlike(coder, expected, v, count)), 0x100 + v),
    decreases count,
{
    lemma2_to64();
    if count > 0 {
        let i = (count - 1) as nat;
        let node = pow2((8 - count) as nat) + v / pow2(count) as int;
        let row: int = if v / pow2(count) as int != expected / pow2(count) as int {
            0
        } else if nth(expected, i) == 0 {
            0x100
        } else {
            0x200
        };
        let place = Place::Node(Tree::Literal(coder), row + node);
        lemma_halves(v, i);
        lemma_halves(expected, i);
        lemma_pow2_unfold((8 - i) as nat);
        lemma_first(c, place, nth(v, i), spell_unlike(coder, expected, v, i));
        // The next bit that is expected is on top.
        assert(mb / 128 == nth(expected, i) && (2 * mb) % 256 == expected * pow2((8 - i) as nat)
            % 0x100) by {
            lemma_on_top(expected, count);
        }
        let c1 = read_at(c, place).0;
        assert(2 * node + nth(v, i) == pow2((8 - i) as nat) + v / pow2(i) as int);
        lemma_spelled_unlike(c1, coder, expected, (2 * mb) % 256, v, i);
    } else {
        assert(v / 1 == v);
    }
}

/// A byte moved up has the bit on top that it is moved by.
#[verifier::rlimit(50)]
#[verifier::spinoff_prover]
proof fn lemma_on_top(v: int, count: nat)
    requires
        0 <= v < 0x100,
        1 <= count <= 8,
    ensures
        (v * pow2((8 - count) as nat) % 0x100) / 128 == nth(v, (count - 1) as nat),
        (2 * (v * pow2((8 - count) as nat) % 0x100)) % 256 == v * pow2((9 - count) as nat) % 0x100,
{
    lemma2_to64();
    if count == 8 {
        let (q, r) = (v / 256, v % 256);
        assert(v * 1 % 0x100 == 1 * r);
        assert(v / 128 == 2 * q + r / 128);
        assert(v * 2 % 0x100 == 2 * (1 * r) % 0x100);
    } else if count == 7 {
        let (q, r) = (v / 128, v % 128);
        assert(v * 2 % 0x100 == 2 * r);
        assert(v / 64 == 2 * q + r / 64);
        assert(v * 4 % 0x100 == 2 * (2 * r) % 0x100);
    } else if count == 6 {
        let (q, r) = (v / 64, v % 64);
        assert(v * 4 % 0x100 == 4 * r);
        assert(v / 32 == 2 * q + r / 32);
        assert(v * 8 % 0x100 == 2 * (4 * r) % 0x100);
    } else if count == 5 {
        let (q, r) = (v / 32, v % 32);
        assert(v * 8 % 0x100 == 8 * r);
        assert(v / 16 == 2 * q + r / 16);
        assert(v * 16 % 0x100 == 2 * (8 * r) % 0x100);
    } else if count == 4 {
        let (q, r) = (v / 16, v % 16);
        assert(v * 16 % 0x100 == 16 * r);
        assert(v / 8 == 2 * q + r / 8);
        assert(v * 32 % 0x100 == 2 * (16 * r) % 0x100);
    } else if count == 3 {
        let (q, r) = (v / 8, v % 8);
        assert(v * 32 % 0x100 == 32 * r);
        assert(v / 4 == 2 * q + r / 4);
        assert(v * 64 % 0x100 == 2 * (32 * r) % 0x100);
    } else if count == 2 {
        let (q, r) = (v / 4, v % 4);
        assert(v * 64 % 0x100 == 64 * r);
        assert(v / 2 == 2 * q + r / 2);
        assert(v * 128 % 0x100 == 2 * (64 * r) % 0x100);
    } else {
        let (q, r) = (v / 2, v % 2);
        assert(v * 128 % 0x100 == 128 * r);
        assert(v / 1 == 2 * q + r / 1);
        assert(v * 256 % 0x100 == 2 * (128 * r) % 0x100);
    }
}

/// Where the top bit of `d` stands.
pub open spec fn top_bit(d: int) -> nat
    decreases d,
{
    if d < 2 {
        0
    } else {
        1 + top_bit(d / 2)
    }
}

proof fn lemma_top_bit(d: int)
    requires
        1 <= d,
    ensures
        pow2(top_bit(d)) <= d < 2 * pow2(top_bit(d)),
    decreases d,
{
    lemma2_to64();
    if d >= 2 {
        lemma_top_bit(d / 2);
        lemma_pow2_unfold(top_bit(d));
    }
}

proof fn lemma_top_bit_bound(d: int, n: nat)
    requires
        1 <= d < pow2(n),
    ensures
        top_bit(d) < n,
{
    lemma_top_bit(d);
    if top_bit(d) >= n {
        lemma_pow2_strictly_increases(n, top_bit(d) + 1);
        lemma_pow2_unfold(top_bit(d) + 1);
        if top_bit(d) > n {
            lemma_pow2_strictly_increases(n, top_bit(d));
        }
    }
}

/// The slot of a distance, which counts from zero: the distance itself where it is
/// small, and else where its top bit stands and the bit below.
pub open spec fn slot_of(d: int) -> int {
    if d < 4 {
        d
    } else {
        2 * top_bit(d) + nth(d, (top_bit(d) - 1) as nat)
    }
}

/// How many bits of a distance are not in its slot.
pub open spec fn extra_bits(slot: int) -> nat {
    if slot < 4 {
        0
    } else {
        (slot / 2 - 1) as nat
    }
}

/// A distance is its slot and the bits that are not in it.
proof fn lemma_slot(d: int)
    requires
        0 <= d < 0x1_0000_0000,
    ensures
        0 <= slot_of(d) < 64,
        d >= 4 ==> {
            let slot = slot_of(d);
            let x = pow2(extra_bits(slot)) as int;
            &&& slot >= 4
            &&& top_bit(d) >= 2
            &&& extra_bits(slot) == top_bit(d) - 1
            &&& d / x == 2 + slot % 2
            &&& d == (2 + slot % 2) * x + d % x
        },
{
    lemma2_to64();
    if d >= 4 {
        let n = top_bit(d);
        lemma_top_bit(d);
        lemma_top_bit_bound(d, 32);
        if n < 2 {
            assert(n == 0 || n == 1);
        }
        let i = (n - 1) as nat;
        let x = pow2(i) as int;
        lemma_pow2_unfold(n);
        lemma_halves(d, i);
        assert(d / pow2(n) as int == 1) by {
            let y = pow2(n) as int;
            lemma_fundamental_div_mod(d, y);
            assert(d / y == 1) by (nonlinear_arith)
                requires
                    y <= d < 2 * y,
                    d == y * (d / y) + d % y,
                    0 <= d % y < y,
            ;
        }
        assert(slot_of(d) / 2 == n);
        assert(slot_of(d) % 2 == nth(d, i));
        lemma_fundamental_div_mod(d, x);
        assert(x * (d / x) == (d / x) * x) by (nonlinear_arith);
    }
}

/// What a distance is spelled as behind its slot.
pub open spec fn spell_rest(d: int) -> Seq<Decision> {
    let slot = slot_of(d);
    let count = extra_bits(slot);
    if slot < 4 {
        seq![]
    } else if slot < 14 {
        spell_reverse(Tree::Special(slot), d, 0, count)
    } else {
        spell_even(d / 16, (count - 4) as nat) + spell_reverse(Tree::Align, d, 0, 4)
    }
}

/// How a distance is spelled, for a copy of `len` bytes.
pub open spec fn spell_distance(len: int, d: int) -> Seq<Decision> {
    let by_len: int = if len < 5 {
        len - 2
    } else {
        3
    };
    spell_tree(Tree::Slot(by_len), 6, slot_of(d), 6) + spell_rest(d)
}

proof fn lemma_special_base(slot: int)
    requires
        4 <= slot < 14,
    ensures
        Tree::Special(slot).base() == SPEC_POS + (2 + slot % 2) * pow2((slot / 2 - 1) as nat),
        Tree::Special(slot).nodes() == pow2((slot / 2 - 1) as nat),
{
    lemma2_to64();
    let x = pow2((slot / 2 - 1) as nat) as int;
    assert(slot / 2 == 2 || slot / 2 == 3 || slot / 2 == 4 || slot / 2 == 5 || slot / 2 == 6);
    if slot % 2 == 0 {
        assert((2 + slot % 2) * x == 2 * x);
    } else {
        assert((2 + slot % 2) * x == 3 * x);
    }
}

proof fn lemma_rest_is_read(c: Coding, d: int)
    requires
        0 <= d < 0x1_0000_0000,
        finds(c, spell_rest(d)),
    ensures
        distance_rest(c, slot_of(d)) == (behind(c, spell_rest(d)), d),
{
    lemma2_to64();
    lemma_slot(d);
    let slot = slot_of(d);
    let count = extra_bits(slot);
    let x = pow2(count) as int;
    assert(d % 1 == 0);
    if slot >= 4 && slot < 14 {
        lemma_special_base(slot);
        lemma_reverse_is_read(c, Tree::Special(slot), d, 0, count);
    } else if slot >= 14 {
        let k = (count - 4) as nat;
        lemma_join(c, spell_even(d / 16, k), spell_reverse(Tree::Align, d, 0, 4));
        lemma_even_is_read(c, 2 + slot % 2, d / 16, k);
        let c1 = behind(c, spell_even(d / 16, k));
        lemma_reverse_is_read(c1, Tree::Align, d, 0, 4);
        lemma_pow2_adds(k, 4);
        lemma_pow2_pos(k);
        let y = pow2(k) as int;
        assert(x == 16 * y);
        // The bits between those of the slot and the last four.
        lemma_div_denominator(d, 16, y);
        assert(d / 16 / y == d / x);
        lemma_fundamental_div_mod(d / 16, y);
        assert(y * (2 + slot % 2) == (2 + slot % 2) * y) by (nonlinear_arith);
    }
}

/// A distance that was spelled is read, for every distance that 32 bits can say.
pub proof fn lemma_distance_is_read(c: Coding, len: int, d: int)
    requires
        2 <= len,
        0 <= d < 0x1_0000_0000,
        finds(c, spell_distance(len, d)),
    ensures
        distance(c, len - 2) == (behind(c, spell_distance(len, d)), d),
{
    let by_len: int = if len < 5 {
        len - 2
    } else {
        3
    };
    let slot = slot_of(d);
    lemma2_to64();
    lemma_slot(d);
    lemma_join(c, spell_tree(Tree::Slot(by_len), 6, slot, 6), spell_rest(d));
    lemma_tree_is_read(c, Tree::Slot(by_len), 6, slot);
    lemma_rest_is_read(behind(c, spell_tree(Tree::Slot(by_len), 6, slot, 6)), d);
}

/// A distance has one slot: those of a slot from the fourth on are `2^n` numbers
/// that follow each other, where `n` is the number of bits that are not in it.
pub proof fn lemma_one_slot(d: int, slot: int)
    requires
        0 <= d < 0x1_0000_0000,
        0 <= slot < 64,
    ensures
        slot < 4 ==> (slot_of(d) == slot <==> d == slot),
        slot >= 4 ==> {
            let n = (slot / 2 - 1) as nat;
            let first = (2 + slot % 2) * pow2(n);
            slot_of(d) == slot <==> first <= d < first + pow2(n)
        },
{
    lemma_slot(d);
    lemma2_to64();
    if slot >= 4 {
        let n = (slot / 2 - 1) as nat;
        let x = pow2(n) as int;
        lemma_pow2_pos(n);
        if slot_of(d) == slot {
            if d >= 4 {
                lemma_mod_bound(d, x);
            }
        }
        let first = (2 + slot % 2) * x;
        if first <= d < first + x {
            assert(2 * x <= d < 4 * x) by (nonlinear_arith)
                requires
                    first == (2 + slot % 2) * x,
                    0 <= slot % 2 <= 1,
                    first <= d < first + x,
                    x > 0,
            ;
            let m = (n + 1) as nat;
            lemma_pow2_unfold(m);
            assert(d >= 4) by {
                if n >= 1 {
                    lemma_pow2_unfold(n);
                    lemma_pow2_pos((n - 1) as nat);
                }
            }
            lemma_top_bit(d);
            let t = top_bit(d);
            if t < m {
                if t + 1 < m {
                    lemma_pow2_strictly_increases(t + 1, m);
                }
                lemma_pow2_unfold(t + 1);
            }
            if t > m {
                if t > m + 1 {
                    lemma_pow2_strictly_increases(m + 1, t);
                }
                lemma_pow2_unfold(m + 1);
            }
            assert(t == m);
            lemma_fundamental_div_mod(d, x);
            assert(d / x == 2 + slot % 2) by (nonlinear_arith)
                requires
                    first == (2 + slot % 2) * x,
                    first <= d < first + x,
                    d == x * (d / x) + d % x,
                    0 <= d % x < x,
            ;
            assert(slot_of(d) % 2 == slot % 2);
        }
    } else {
        if d >= 4 {
            assert(slot_of(d) >= 4);
        }
    }
}

/// How a length is spelled, from two bytes on.
pub open spec fn spell_length(rep: bool, pos: int, len: int) -> Seq<Decision> {
    if len < 10 {
        one(Place::LenChoice(rep), 0) + spell_tree(Tree::LenLow(rep, pos), 3, len - 2, 3)
    } else if len < 18 {
        one(Place::LenChoice(rep), 1) + (one(Place::LenChoice2(rep), 0) + spell_tree(
            Tree::LenMid(rep, pos),
            3,
            len - 10,
            3,
        ))
    } else {
        one(Place::LenChoice(rep), 1) + (one(Place::LenChoice2(rep), 1) + spell_tree(
            Tree::LenHigh(rep),
            8,
            len - 18,
            8,
        ))
    }
}

/// A length that was spelled is read.
pub proof fn lemma_length_is_read(c: Coding, rep: bool, pos: int, len: int)
    requires
        2 <= len <= 273,
        finds(c, spell_length(rep, pos, len)),
    ensures
        length(c, len_base(rep), pos) == (behind(c, spell_length(rep, pos, len)), len - 2),
{
    lemma2_to64();
    let choice = Place::LenChoice(rep);
    let choice2 = Place::LenChoice2(rep);
    let c1 = read_at(c, choice).0;
    let c2 = read_at(c1, choice2).0;
    if len < 10 {
        let t = spell_tree(Tree::LenLow(rep, pos), 3, len - 2, 3);
        lemma_first(c, choice, 0, t);
        lemma_tree_is_read(c1, Tree::LenLow(rep, pos), 3, len - 2);
    } else if len < 18 {
        let t = spell_tree(Tree::LenMid(rep, pos), 3, len - 10, 3);
        lemma_first(c, choice, 1, one(choice2, 0) + t);
        lemma_first(c1, choice2, 0, t);
        lemma_tree_is_read(c2, Tree::LenMid(rep, pos), 3, len - 10);
    } else {
        let t = spell_tree(Tree::LenHigh(rep), 8, len - 18, 8);
        lemma_first(c, choice, 1, one(choice2, 1) + t);
        lemma_first(c1, choice2, 1, t);
        lemma_tree_is_read(c2, Tree::LenHigh(rep), 8, len - 18);
    }
}

/// What an encoder goes by when it spells a symbol.
pub struct Writer {
    pub lc: nat,
    pub lp: nat,
    pub pb: nat,
    /// All of the data, behind what the dictionary was preset with.
    pub all: Seq<u8>,
    /// How much of it has been spelled.
    pub pos: int,
    /// Which kinds of symbols came last.
    pub state: int,
    /// The last four distances, the last one first.
    pub reps: Seq<int>,
}

impl Writer {
    /// The coder of a literal: as many bits of its position as there are, and as
    /// many of the byte before it, from the top.
    pub open spec fn coder(self) -> int {
        let before: int = if self.pos > 0 {
            self.all[self.pos - 1] as int
        } else {
            0
        };
        (self.pos % pow2(self.lp) as int) * pow2(self.lc) + before / pow2(
            (8 - self.lc) as nat,
        ) as int
    }

    /// How a symbol is spelled.
    pub open spec fn spelled(self, s: Symbol) -> Seq<Decision> {
        let pos = self.pos % pow2(self.pb) as int;
        let copy = one(Place::Match(self.state, pos), 1);
        let rep = copy + one(Place::Rep(self.state), 1);
        let older = rep + one(Place::RepG0(self.state), 1);
        let oldest = older + one(Place::RepG1(self.state), 1);
        match s {
            Symbol::Literal(b) => one(Place::Match(self.state, pos), 0) + (if self.state < 7 {
                spell_tree(Tree::Literal(self.coder()), 8, b as int, 8)
            } else {
                // Behind a copy it is likely not what one more byte of it would be.
                spell_unlike(
                    self.coder(),
                    self.all[self.pos - self.reps[0]] as int,
                    b as int,
                    8,
                )
            }),
            Symbol::ShortRep => rep + one(Place::RepG0(self.state), 0) + one(
                Place::Rep0Long(self.state, pos),
                0,
            ),
            Symbol::Rep(i, len) => (if i == 0 {
                rep + one(Place::RepG0(self.state), 0) + one(Place::Rep0Long(self.state, pos), 1)
            } else if i == 1 {
                older + one(Place::RepG1(self.state), 0)
            } else {
                oldest + one(Place::RepG2(self.state), i - 2)
            }) + spell_length(true, pos, len as int),
            Symbol::Match(d, len) => copy + one(Place::Rep(self.state), 0) + spell_length(
                false,
                pos,
                len as int,
            ) + spell_distance(len as int, d as int),
            Symbol::EndMarker => copy + one(Place::Rep(self.state), 0) + spell_length(
                false,
                pos,
                2,
            ) + spell_distance(2, 0xFFFF_FFFF),
        }
    }
}

impl Writer {
    /// The data goes on with a copy of `len` bytes from `dist` bytes back, which
    /// the dictionary has.
    pub open spec fn repeats(self, dict: nat, dist: int, len: int) -> bool {
        &&& 1 <= dist <= self.pos
        &&& dist <= dict
        &&& self.pos + len <= self.all.len()
        &&& forall|i: int|
            self.pos <= i < self.pos + len ==> #[trigger] self.all[i] == self.all[i - dist]
    }

    /// The data goes on as a symbol says.
    pub open spec fn tells(self, dict: nat, s: Symbol) -> bool {
        match s {
            Symbol::Literal(b) => self.pos < self.all.len() && self.all[self.pos] == b,
            Symbol::ShortRep => self.repeats(dict, self.reps[0], 1),
            Symbol::Rep(i, len) => {
                &&& i < 4
                &&& 2 <= len <= 273
                &&& self.repeats(dict, self.reps[i as int], len as int)
            },
            Symbol::Match(d, len) => {
                &&& 2 <= len <= 273
                &&& self.repeats(dict, d + 1, len as int)
            },
            Symbol::EndMarker => false,
        }
    }

    /// A symbol that can be spelled, whatever the data.
    pub open spec fn spells(self, s: Symbol) -> bool {
        match s {
            Symbol::Rep(i, len) => i < 4 && 2 <= len <= 273,
            Symbol::Match(d, len) => d < 0xFFFF_FFFF && 2 <= len <= 273,
            _ => true,
        }
    }

    /// The encoder behind a symbol. The distance that was used is the last one, and
    /// the others keep their order.
    pub open spec fn next(self, s: Symbol) -> Writer {
        let state = self.state;
        match s {
            Symbol::Literal(_) => Writer {
                pos: self.pos + 1,
                state: seq![0int, 0, 0, 0, 1, 2, 3, 4, 5, 6, 4, 5][state],
                ..self
            },
            Symbol::ShortRep => Writer {
                pos: self.pos + 1,
                state: if state < 7 {
                    9
                } else {
                    11
                },
                ..self
            },
            Symbol::Rep(i, len) => Writer {
                pos: self.pos + len,
                state: if state < 7 {
                    8
                } else {
                    11
                },
                reps: seq![self.reps[i as int]] + self.reps.remove(i as int),
                ..self
            },
            Symbol::Match(d, len) => Writer {
                pos: self.pos + len,
                state: if state < 7 {
                    7
                } else {
                    10
                },
                reps: (seq![d + 1] + self.reps).take(4),
                ..self
            },
            Symbol::EndMarker => self,
        }
    }

    /// The encoder is one that symbols can lead to. Behind a copy its distance is
    /// still one that the dictionary has.
    pub open spec fn wf(self, dict: nat) -> bool {
        &&& self.lc <= 8
        &&& self.lp <= 4
        &&& self.pb <= 4
        &&& 0 <= self.pos <= self.all.len()
        &&& 0 <= self.state < 12
        &&& self.reps.len() == 4
        &&& self.state >= 7 ==> 1 <= self.reps[0] <= self.pos && self.reps[0] <= dict
    }

    /// A decoder is where the encoder is.
    pub open spec fn meets(self, p: Props, m: Machine) -> bool {
        &&& self.lc == p.lc
        &&& self.lp == p.lp
        &&& self.pb == p.pb
        &&& m.hist == self.all.take(self.pos)
        &&& m.state == self.state
        &&& m.reps.len() == 4
        &&& forall|i: int| 0 <= i < 4 ==> #[trigger] m.reps[i] == self.reps[i]
    }
}

proof fn lemma_positions(w: Writer, p: Props, m: Machine)
    requires
        w.wf(p.dict),
        w.meets(p, m),
    ensures
        position_state(p, m.hist) == w.pos % pow2(w.pb) as int,
        literal_coder(p, m.hist) == w.coder(),
        m.hist.len() == w.pos,
{
}

proof fn lemma_literal_is_read(w: Writer, p: Props, m: Machine, c: Coding, b: u8)
    requires
        p.wf(),
        w.wf(p.dict),
        w.meets(p, m),
        w.state < 7 ==> finds(c, spell_tree(Tree::Literal(w.coder()), 8, b as int, 8)),
        w.state >= 7 ==> finds(
            c,
            spell_unlike(w.coder(), w.all[w.pos - w.reps[0]] as int, b as int, 8),
        ),
    ensures
        literal(p, m, c) == (
            behind(
                c,
                if w.state < 7 {
                    spell_tree(Tree::Literal(w.coder()), 8, b as int, 8)
                } else {
                    spell_unlike(w.coder(), w.all[w.pos - w.reps[0]] as int, b as int, 8)
                },
            ),
            b as int,
        ),
{
    lemma2_to64();
    lemma_positions(w, p, m);
    if w.state < 7 {
        lemma_tree_is_read(c, Tree::Literal(w.coder()), 8, b as int);
    } else {
        let expected = w.all[w.pos - w.reps[0]] as int;
        assert(m.reps[0] == w.reps[0]);
        assert(byte_back(m.hist, p.dict, m.reps[0] - 1) == expected);
        assert(expected * 1 % 0x100 == expected);
        assert(b as int / 0x100 == 0 && expected / 0x100 == 0);
        lemma_spelled_unlike(c, w.coder(), expected, expected, b as int, 8);
    }
}

proof fn lemma_rep_is_read(w: Writer, c: Coding, pos: int, i: u32, len: u32)
    requires
        i < 4,
        2 <= len <= 273,
        ({
            let tail = spell_length(true, pos, len as int);
            let ds = if i == 0 {
                one(Place::RepG0(w.state), 0) + (one(Place::Rep0Long(w.state, pos), 1) + tail)
            } else if i == 1 {
                one(Place::RepG0(w.state), 1) + (one(Place::RepG1(w.state), 0) + tail)
            } else {
                one(Place::RepG0(w.state), 1) + (one(Place::RepG1(w.state), 1) + (one(
                    Place::RepG2(w.state),
                    i - 2,
                ) + tail))
            };
            finds(c, ds)
        }),
    ensures
        ({
            let tail = spell_length(true, pos, len as int);
            let ds = if i == 0 {
                one(Place::RepG0(w.state), 0) + (one(Place::Rep0Long(w.state, pos), 1) + tail)
            } else if i == 1 {
                one(Place::RepG0(w.state), 1) + (one(Place::RepG1(w.state), 0) + tail)
            } else {
                one(Place::RepG0(w.state), 1) + (one(Place::RepG1(w.state), 1) + (one(
                    Place::RepG2(w.state),
                    i - 2,
                ) + tail))
            };
            rep_symbol(c, w.state, pos) == (behind(c, ds), Symbol::Rep(i, len))
        }),
{
    let tail = spell_length(true, pos, len as int);
    let g0 = Place::RepG0(w.state);
    let c1 = read_at(c, g0).0;
    if i == 0 {
        let long = Place::Rep0Long(w.state, pos);
        lemma_first(c, g0, 0, one(long, 1) + tail);
        lemma_first(c1, long, 1, tail);
        lemma_length_is_read(read_at(c1, long).0, true, pos, len as int);
    } else {
        let g1 = Place::RepG1(w.state);
        let c2 = read_at(c1, g1).0;
        if i == 1 {
            lemma_first(c, g0, 1, one(g1, 0) + tail);
            lemma_first(c1, g1, 0, tail);
            lemma_length_is_read(c2, true, pos, len as int);
        } else {
            let g2 = Place::RepG2(w.state);
            lemma_first(c, g0, 1, one(g1, 1) + (one(g2, i - 2) + tail));
            lemma_first(c1, g1, 1, one(g2, i - 2) + tail);
            lemma_first(c2, g2, i - 2, tail);
            lemma_length_is_read(read_at(c2, g2).0, true, pos, len as int);
        }
    }
}

/// A copy from a fresh distance that was spelled is read, and the largest distance
/// is an end marker, with whatever length.
pub proof fn lemma_match_is_read(c: Coding, pos: int, d: u32, len: u32)
    requires
        2 <= len <= 273,
        finds(
            c,
            spell_length(false, pos, len as int) + spell_distance(len as int, d as int),
        ),
    ensures
        match_symbol(c, pos) == (
            behind(c, spell_length(false, pos, len as int) + spell_distance(len as int, d as int)),
            if d == 0xFFFF_FFFF {
                Symbol::EndMarker
            } else {
                Symbol::Match(d, len)
            },
        ),
{
    let l = spell_length(false, pos, len as int);
    lemma_join(c, l, spell_distance(len as int, d as int));
    lemma_length_is_read(c, false, pos, len as int);
    lemma_distance_is_read(behind(c, l), len as int, d as int);
}

/// A symbol that was spelled is read.
pub proof fn lemma_symbol_is_read(w: Writer, p: Props, m: Machine, s: Symbol)
    requires
        p.wf(),
        w.wf(p.dict),
        w.meets(p, m),
        w.spells(s),
        finds(m.coding, w.spelled(s)),
    ensures
        symbol(p, m) == (behind(m.coding, w.spelled(s)), s),
{
    reveal(symbol);
    lemma_positions(w, p, m);
    let pos = w.pos % pow2(w.pb) as int;
    let c = m.coding;
    let first = Place::Match(w.state, pos);
    let second = Place::Rep(w.state);
    let c1 = read_at(c, first).0;
    let c2 = read_at(c1, second).0;
    match s {
        Symbol::Literal(b) => {
            let rest = if w.state < 7 {
                spell_tree(Tree::Literal(w.coder()), 8, b as int, 8)
            } else {
                spell_unlike(w.coder(), w.all[w.pos - w.reps[0]] as int, b as int, 8)
            };
            lemma_first(c, first, 0, rest);
            lemma_literal_is_read(w, p, m, c1, b);
        },
        Symbol::ShortRep => {
            let g0 = Place::RepG0(w.state);
            let long = Place::Rep0Long(w.state, pos);
            let rest = one(g0, 0) + one(long, 0);
            assert(w.spelled(s) =~= one(first, 1) + (one(second, 1) + rest));
            lemma_first(c, first, 1, one(second, 1) + rest);
            lemma_first(c1, second, 1, rest);
            lemma_first(c2, g0, 0, one(long, 0));
            lemma_one(read_at(c2, g0).0, long, 0);
        },
        Symbol::Rep(i, len) => {
            let tail = spell_length(true, pos, len as int);
            let rest = if i == 0 {
                one(Place::RepG0(w.state), 0) + (one(Place::Rep0Long(w.state, pos), 1) + tail)
            } else if i == 1 {
                one(Place::RepG0(w.state), 1) + (one(Place::RepG1(w.state), 0) + tail)
            } else {
                one(Place::RepG0(w.state), 1) + (one(Place::RepG1(w.state), 1) + (one(
                    Place::RepG2(w.state),
                    i - 2,
                ) + tail))
            };
            assert(w.spelled(s) =~= one(first, 1) + (one(second, 1) + rest));
            lemma_first(c, first, 1, one(second, 1) + rest);
            lemma_first(c1, second, 1, rest);
            lemma_rep_is_read(w, c2, pos, i, len);
        },
        Symbol::Match(d, len) => {
            let rest = spell_length(false, pos, len as int) + spell_distance(len as int, d as int);
            assert(w.spelled(s) =~= one(first, 1) + (one(second, 0) + rest));
            lemma_first(c, first, 1, one(second, 0) + rest);
            lemma_first(c1, second, 0, rest);
            lemma_match_is_read(c2, pos, d, len);
        },
        Symbol::EndMarker => {
            let rest = spell_length(false, pos, 2) + spell_distance(2, 0xFFFF_FFFF);
            assert(w.spelled(s) =~= one(first, 1) + (one(second, 0) + rest));
            lemma_first(c, first, 1, one(second, 0) + rest);
            lemma_first(c1, second, 0, rest);
            lemma_match_is_read(c2, pos, 0xFFFF_FFFF, 2);
        },
    }
}

proof fn lemma_tree_wf(tree: Tree, total: nat, v: int, count: nat, bits: nat)
    requires
        tree.wf(bits),
        pow2(total) <= tree.nodes(),
        0 <= v < pow2(total),
        count <= total,
    ensures
        decisions_wf(spell_tree(tree, total, v, count), bits),
    decreases count,
{
    if count > 0 {
        let i = (count - 1) as nat;
        lemma_tree_wf(tree, total, v, i, bits);
        lemma_halves(v, i);
        lemma_halves(v, count);
        let x = pow2(count) as int;
        let y = pow2((total - count) as nat) as int;
        lemma_pow2_pos((total - count) as nat);
        lemma_pow2_pos(count);
        lemma_pow2_adds((total - count) as nat, count);
        assert(v / x < y) by (nonlinear_arith)
            requires
                0 <= v < y * x,
                x > 0,
        ;
        // A node never has more bits than there are in all.
        lemma_pow2_unfold((total - i) as nat);
        if i > 0 {
            lemma_pow2_strictly_increases((total - i) as nat, total);
        }
    }
}

proof fn lemma_reverse_wf(tree: Tree, v: int, done: nat, count: nat, bits: nat)
    requires
        tree.wf(bits),
        pow2(done + count) <= tree.nodes(),
        0 <= v,
    ensures
        decisions_wf(spell_reverse(tree, v, done, count), bits),
    decreases count,
{
    if count > 0 {
        lemma_halves(v, done);
        lemma_pow2_pos(done);
        lemma_pow2_unfold(done + 1);
        if count > 1 {
            lemma_pow2_strictly_increases(done + 1, done + count);
        }
        lemma_reverse_wf(tree, v, done + 1, (count - 1) as nat, bits);
    }
}

proof fn lemma_even_wf(v: int, count: nat, bits: nat)
    requires
        0 <= v,
    ensures
        decisions_wf(spell_even(v, count), bits),
    decreases count,
{
    if count > 0 {
        lemma_halves(v, (count - 1) as nat);
        lemma_even_wf(v, (count - 1) as nat, bits);
    }
}

proof fn lemma_unlike_wf(coder: int, expected: int, v: int, count: nat, bits: nat)
    requires
        Tree::Literal(coder).wf(bits),
        0 <= v < 0x100,
        count <= 8,
    ensures
        decisions_wf(spell_unlike(coder, expected, v, count), bits),
    decreases count,
{
    lemma2_to64();
    if count > 0 {
        let i = (count - 1) as nat;
        lemma_halves(v, i);
        lemma_halves(v, count);
        lemma_unlike_wf(coder, expected, v, i, bits);
        let x = pow2(count) as int;
        let y = pow2((8 - count) as nat) as int;
        lemma_pow2_pos((8 - count) as nat);
        lemma_pow2_pos(count);
        lemma_pow2_adds((8 - count) as nat, count);
        assert(v / x < y) by (nonlinear_arith)
            requires
                0 <= v < y * x,
                x > 0,
        ;
        lemma_pow2_unfold((8 - i) as nat);
        if i > 0 {
            lemma_pow2_strictly_increases((8 - i) as nat, 8);
        }
    }
}

proof fn lemma_length_wf(rep: bool, pos: int, len: int, bits: nat)
    requires
        0 <= pos < 16,
        2 <= len <= 273,
    ensures
        decisions_wf(spell_length(rep, pos, len), bits),
{
    lemma2_to64();
    if len < 10 {
        lemma_tree_wf(Tree::LenLow(rep, pos), 3, len - 2, 3, bits);
    } else if len < 18 {
        lemma_tree_wf(Tree::LenMid(rep, pos), 3, len - 10, 3, bits);
    } else {
        lemma_tree_wf(Tree::LenHigh(rep), 8, len - 18, 8, bits);
    }
}

proof fn lemma_distance_wf(len: int, d: int, bits: nat)
    requires
        2 <= len,
        0 <= d < 0x1_0000_0000,
    ensures
        decisions_wf(spell_distance(len, d), bits),
{
    lemma2_to64();
    lemma_slot(d);
    let slot = slot_of(d);
    let count = extra_bits(slot);
    let by_len: int = if len < 5 {
        len - 2
    } else {
        3
    };
    lemma_tree_wf(Tree::Slot(by_len), 6, slot, 6, bits);
    if slot >= 4 && slot < 14 {
        lemma_special_base(slot);
        lemma_reverse_wf(Tree::Special(slot), d, 0, count, bits);
    } else if slot >= 14 {
        lemma_even_wf(d / 16, (count - 4) as nat, bits);
        lemma_reverse_wf(Tree::Align, d, 0, 4, bits);
    }
}

proof fn lemma_coder_bound(w: Writer)
    requires
        w.lc <= 8,
        0 <= w.pos,
    ensures
        0 <= w.coder() < pow2(w.lc + w.lp),
{
    lemma2_to64();
    let before: int = if w.pos > 0 {
        w.all[w.pos - 1] as int
    } else {
        0
    };
    let x = pow2(w.lp) as int;
    let y = pow2(w.lc) as int;
    let z = pow2((8 - w.lc) as nat) as int;
    lemma_pow2_pos(w.lp);
    lemma_pow2_pos(w.lc);
    lemma_pow2_pos((8 - w.lc) as nat);
    lemma_pow2_adds(w.lp, w.lc);
    lemma_pow2_adds(w.lc, (8 - w.lc) as nat);
    let a = w.pos % x;
    assert(0 <= before / z < y) by (nonlinear_arith)
        requires
            0 <= before < y * z,
            z > 0,
    ;
    assert(0 <= a * y && a * y + y <= x * y) by (nonlinear_arith)
        requires
            0 <= a < x,
            y > 0,
    ;
}

/// A symbol is spelled by decisions that there are.
pub proof fn lemma_spelled_wf(w: Writer, dict: nat, s: Symbol)
    requires
        w.wf(dict),
        w.spells(s),
    ensures
        decisions_wf(w.spelled(s), w.lc + w.lp),
{
    lemma2_to64();
    let bits = w.lc + w.lp;
    let pos = w.pos % pow2(w.pb) as int;
    lemma_pow2_pos(w.pb);
    assert(0 <= pos < 16) by {
        if w.pb < 4 {
            lemma_pow2_strictly_increases(w.pb, 4);
        }
    }
    lemma_coder_bound(w);
    match s {
        Symbol::Literal(b) => {
            lemma_tree_wf(Tree::Literal(w.coder()), 8, b as int, 8, bits);
            lemma_unlike_wf(
                w.coder(),
                w.all[w.pos - w.reps[0]] as int,
                b as int,
                8,
                bits,
            );
        },
        Symbol::ShortRep => {},
        Symbol::Rep(i, len) => {
            lemma_length_wf(true, pos, len as int, bits);
        },
        Symbol::Match(d, len) => {
            lemma_length_wf(false, pos, len as int, bits);
            lemma_distance_wf(len as int, d as int, bits);
        },
        Symbol::EndMarker => {
            lemma_length_wf(false, pos, 2, bits);
            lemma_distance_wf(2, 0xFFFF_FFFF, bits);
        },
    }
}

} // verus!
