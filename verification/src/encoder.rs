//! What an encoder writes, bit by bit.
//!
//! An encoder cuts its data into symbols, spells each of them as decisions
//! between zero and one, and codes these against the odds that it keeps for
//! every place where a decision can be made. This is that encoder as
//! mathematics, with nothing taken over from the decoder but the places where a
//! decoder keeps its probabilities, no two of which are the same. What is coded
//! here is what a decoder reads.

use vstd::arithmetic::power2::{lemma_pow2_pos, pow2};
use vstd::prelude::*;

use crate::accounting::{lemma_bit, lemma_direct_bits, lemma_normalize};
use crate::coding::{bit, direct_bit, direct_bits, normalize, Coding};
use crate::symbol::{
    ALIGN, IS_MATCH, IS_REP, IS_REP0_LONG, IS_REP_G0, IS_REP_G1, IS_REP_G2, LEN_CHOICE,
    LEN_CHOICE2, LEN_CODER, LEN_HIGH, LEN_LOW, LITERAL, LIT_STRIDE, NUM_BASE_PROBS, POS_SLOT,
    REP_LEN_CODER, SPEC_POS,
};

verus! {

/// A number that is spelled bit by bit, with odds for every bit that depend on
/// the bits before.
pub enum Tree {
    /// A length up to nine of a copy from one of the last distances or not, by
    /// the position.
    LenLow(bool, int),
    /// A length up to seventeen.
    LenMid(bool, int),
    /// A longer one.
    LenHigh(bool),
    /// The slot of a distance, by the length.
    Slot(int),
    /// What is left of a short distance behind its slot.
    Special(int),
    /// The low bits of a long distance.
    Align,
    /// A literal.
    Literal(int),
}

/// Where a decision is made.
pub enum Place {
    /// A copy and no literal, by the state and the position.
    Match(int, int),
    /// A copy from one of the last distances and no fresh one, by the state.
    Rep(int),
    /// Not the last of the last distances.
    RepG0(int),
    /// Not the one before either.
    RepG1(int),
    /// Nor the one before that.
    RepG2(int),
    /// More than one byte from the last distance.
    Rep0Long(int, int),
    /// A length of ten or more.
    LenChoice(bool),
    /// A length of eighteen or more.
    LenChoice2(bool),
    /// Within a number, behind the bits that the node stands for.
    Node(Tree, int),
    /// At even odds.
    Even,
}

/// A decision: where, and what for.
pub struct Decision {
    pub place: Place,
    pub bit: int,
}

impl Tree {
    /// A tree that there is, with `bits` bits in all of the literal context and
    /// position.
    pub open spec fn wf(self, bits: nat) -> bool {
        match self {
            Tree::LenLow(_, pos) => 0 <= pos < 16,
            Tree::LenMid(_, pos) => 0 <= pos < 16,
            Tree::LenHigh(_) => true,
            Tree::Slot(len) => 0 <= len < 4,
            Tree::Special(slot) => 4 <= slot < 14,
            Tree::Align => true,
            Tree::Literal(coder) => 0 <= coder < pow2(bits),
        }
    }

    /// The number of nodes, and one more.
    pub open spec fn nodes(self) -> int {
        match self {
            Tree::LenLow(_, _) => 8,
            Tree::LenMid(_, _) => 8,
            Tree::LenHigh(_) => 256,
            Tree::Slot(_) => 64,
            Tree::Special(slot) => if slot < 6 {
                2
            } else if slot < 8 {
                4
            } else if slot < 10 {
                8
            } else if slot < 12 {
                16
            } else {
                32
            },
            Tree::Align => 16,
            Tree::Literal(_) => 0x300,
        }
    }

    /// Where a decoder keeps the odds, but for the node.
    pub open spec fn base(self) -> int {
        match self {
            Tree::LenLow(rep, pos) => len_base(rep) + LEN_LOW + 16 * pos,
            Tree::LenMid(rep, pos) => len_base(rep) + LEN_LOW + 16 * pos + 8,
            Tree::LenHigh(rep) => len_base(rep) + LEN_HIGH,
            Tree::Slot(len) => POS_SLOT + 64 * len,
            Tree::Special(slot) => SPEC_POS + (if slot % 2 == 0 {
                2 * self.nodes()
            } else {
                3 * self.nodes()
            }),
            Tree::Align => ALIGN as int,
            Tree::Literal(coder) => LITERAL + LIT_STRIDE * coder,
        }
    }
}

/// Where a decoder keeps the odds of lengths.
pub open spec fn len_base(rep: bool) -> int {
    if rep {
        REP_LEN_CODER as int
    } else {
        LEN_CODER as int
    }
}

impl Place {
    /// A place that there is, with `bits` bits in all of the literal context and
    /// position.
    pub open spec fn wf(self, bits: nat) -> bool {
        match self {
            Place::Match(state, pos) => 0 <= state < 12 && 0 <= pos < 16,
            Place::Rep(state) => 0 <= state < 12,
            Place::RepG0(state) => 0 <= state < 12,
            Place::RepG1(state) => 0 <= state < 12,
            Place::RepG2(state) => 0 <= state < 12,
            Place::Rep0Long(state, pos) => 0 <= state < 12 && 0 <= pos < 16,
            Place::LenChoice(_) => true,
            Place::LenChoice2(_) => true,
            Place::Node(tree, node) => tree.wf(bits) && 1 <= node < tree.nodes(),
            Place::Even => true,
        }
    }

    /// Where a decoder keeps the odds.
    pub open spec fn index(self) -> int {
        match self {
            Place::Match(state, pos) => IS_MATCH + 16 * pos + state,
            Place::Rep(state) => IS_REP + state,
            Place::RepG0(state) => IS_REP_G0 + state,
            Place::RepG1(state) => IS_REP_G1 + state,
            Place::RepG2(state) => IS_REP_G2 + state,
            Place::Rep0Long(state, pos) => IS_REP0_LONG + 16 * pos + state,
            Place::LenChoice(rep) => len_base(rep) + LEN_CHOICE,
            Place::LenChoice2(rep) => len_base(rep) + LEN_CHOICE2,
            Place::Node(tree, node) => tree.base() + node,
            Place::Even => -1,
        }
    }
}

/// A decoder keeps the odds of every place somewhere.
pub proof fn lemma_index_bound(x: Place, bits: nat)
    requires
        x.wf(bits),
        x != Place::Even,
    ensures
        0 <= x.index() < NUM_BASE_PROBS + LIT_STRIDE * pow2(bits),
{
    lemma_pow2_pos(bits);
}

/// No two places share the odds.
#[verifier::rlimit(80)]
#[verifier::spinoff_prover]
pub proof fn lemma_index_differs(x: Place, y: Place, bits: nat)
    requires
        x.wf(bits),
        y.wf(bits),
        x.index() == y.index(),
    ensures
        x == y,
{
}

/// The odds that an encoder keeps: how many parts in 2048 stand for a zero.
pub type Odds = Map<Place, int>;

/// Where nothing has been seen yet, zero and one are as likely.
pub open spec fn even_odds() -> Odds {
    Map::new(|x: Place| true, |x: Place| 1024int)
}

/// What is seen becomes more likely, by one part in thirty-two of what is missing.
pub open spec fn learned(odds: Odds, d: Decision) -> Odds {
    let o = odds[d.place];
    if d.place == Place::Even {
        odds
    } else if d.bit == 0 {
        odds.insert(d.place, o + (2048 - o) / 32)
    } else {
        odds.insert(d.place, o - o / 32)
    }
}

/// A range is brought back to three whole bytes before it is divided.
pub open spec fn widened(range: int) -> int {
    if range < 0x100_0000 {
        0x100 * range
    } else {
        range
    }
}

/// How much of a range stands for a zero.
pub open spec fn share(range: int, odds: Odds, place: Place) -> int {
    if place == Place::Even {
        range / 2
    } else {
        range / 2048 * odds[place]
    }
}

/// What a range comes down to: the share of a zero, or what is left for a one. At
/// even odds a one gets no more than a zero.
pub open spec fn narrowed(range: int, odds: Odds, d: Decision) -> int {
    let zero = share(range, odds, d.place);
    if d.bit == 0 || d.place == Place::Even {
        zero
    } else {
        range - zero
    }
}

/// What a range has come down to behind some decisions.
pub open spec fn last_range(range: int, odds: Odds, ds: Seq<Decision>) -> int
    decreases ds.len(),
{
    if ds.len() == 0 {
        range
    } else {
        last_range(
            narrowed(widened(range), odds, ds[0]),
            learned(odds, ds[0]),
            ds.drop_first(),
        )
    }
}

/// The code of some decisions within a range, and the bytes that follow it. The
/// last decision is coded first: it has the number `rest` within what the range has
/// come down to, and every one before adds the share of a zero where it is a one.
/// Where a range is widened, the low byte is left to follow.
pub open spec fn coded(range: int, odds: Odds, ds: Seq<Decision>, rest: int) -> (int, Seq<u8>)
    decreases ds.len(),
{
    if ds.len() == 0 {
        if range < 0x100_0000 {
            (rest / 0x100, seq![(rest % 0x100) as u8])
        } else {
            (rest, seq![])
        }
    } else {
        let d = ds[0];
        let r = widened(range);
        let (code, bytes) = coded(narrowed(r, odds, d), learned(odds, d), ds.drop_first(), rest);
        let c = if d.bit == 0 {
            code
        } else {
            code + share(r, odds, d.place)
        };
        if range < 0x100_0000 {
            (c / 0x100, seq![(c % 0x100) as u8] + bytes)
        } else {
            (c, bytes)
        }
    }
}

/// What a decoder reads at a place.
pub open spec fn read_at(c: Coding, x: Place) -> (Coding, int) {
    if x == Place::Even {
        direct_bit(c)
    } else {
        bit(c, x.index())
    }
}

/// A decoder that looks for the decisions `ds` finds them.
pub open spec fn finds(c: Coding, ds: Seq<Decision>) -> bool
    decreases ds.len(),
{
    ds.len() > 0 ==> {
        &&& read_at(c, ds[0].place).1 == ds[0].bit
        &&& finds(read_at(c, ds[0].place).0, ds.drop_first())
    }
}

/// The coder behind them.
pub open spec fn behind(c: Coding, ds: Seq<Decision>) -> Coding
    decreases ds.len(),
{
    if ds.len() == 0 {
        c
    } else {
        behind(read_at(c, ds[0].place).0, ds.drop_first())
    }
}

/// Every decision is made where one can be made.
pub open spec fn decisions_wf(ds: Seq<Decision>, bits: nat) -> bool {
    forall|i: int|
        0 <= i < ds.len() ==> (#[trigger] ds[i]).place.wf(bits) && 0 <= ds[i].bit <= 1
}

/// A decoder keeps the odds that an encoder does.
pub open spec fn keeps(probs: Seq<u16>, odds: Odds, bits: nat) -> bool {
    &&& probs.len() == NUM_BASE_PROBS + LIT_STRIDE * pow2(bits)
    &&& forall|x: Place|
        x.wf(bits) && x != Place::Even ==> probs[#[trigger] x.index()] == odds[x]
}

proof fn lemma_keeps(probs: Seq<u16>, odds: Odds, bits: nat, d: Decision, value: u16)
    requires
        keeps(probs, odds, bits),
        d.place.wf(bits),
        d.place != Place::Even,
        value == learned(odds, d)[d.place],
    ensures
        keeps(probs.update(d.place.index(), value), learned(odds, d), bits),
{
    lemma_index_bound(d.place, bits);
    let new = probs.update(d.place.index(), value);
    assert forall|x: Place| x.wf(bits) && x != Place::Even implies new[#[trigger] x.index()]
        == learned(odds, d)[x] by {
        lemma_index_bound(x, bits);
        if x.index() == d.place.index() {
            lemma_index_differs(x, d.place, bits);
        }
    }
}

/// The code of some decisions lies within the range.
pub proof fn lemma_coded_bound(c: Coding, odds: Odds, ds: Seq<Decision>, bits: nat, rest: int)
    requires
        c.wf(),
        keeps(c.probs, odds, bits),
        decisions_wf(ds, bits),
        0 <= rest < widened(last_range(c.range as int, odds, ds)) || rest == 0,
    ensures
        0 <= coded(c.range as int, odds, ds, rest).0 < c.range,
        last_range(c.range as int, odds, ds) > 0,
    decreases ds.len(),
{
    if ds.len() > 0 {
        let d = ds[0];
        let x = d.place;
        let r = widened(c.range as int);
        let n = Coding { range: r as u32, ..c };
        let o = odds[x];
        let zero = share(r, odds, x);
        if x != Place::Even {
            lemma_index_bound(x, bits);
            assert(c.probs[x.index()] == o);
            lemma_share(r, o);
        }
        // The coder as it would be behind the decision.
        let value: u16 = learned(odds, d)[x] as u16;
        let e = Coding {
            range: narrowed(r, odds, d) as u32,
            probs: if x == Place::Even {
                c.probs
            } else {
                c.probs.update(x.index(), value)
            },
            ..c
        };
        if x != Place::Even {
            lemma_keeps(c.probs, odds, bits, d, value);
        }
        assert(e.wf());
        lemma_coded_bound(e, learned(odds, d), ds.drop_first(), bits, rest);
    }
}

/// The shares of zero and one.
proof fn lemma_share(range: int, odds: int)
    requires
        0x100_0000 <= range < 0x1_0000_0000,
        31 <= odds <= 2017,
    ensures
        0 < range / 2048 * odds < range,
        67 * (range / 2048 * odds) >= 0x100_0000,
        67 * (range - range / 2048 * odds) >= 0x100_0000,
        31 <= odds + (2048 - odds) / 32 <= 2017,
        31 <= odds - odds / 32 <= 2017,
{
    let q = range / 2048;
    assert(31 * q <= q * odds <= 2017 * q) by (nonlinear_arith)
        requires
            31 <= odds <= 2017,
            q >= 0,
    ;
}

/// What is coded is what a decoder reads: it finds every decision, comes out at
/// `rest`, and leaves what follows.
pub proof fn lemma_coded_is_read(
    c: Coding,
    odds: Odds,
    ds: Seq<Decision>,
    bits: nat,
    rest: int,
    more: Seq<u8>,
)
    requires
        c.wf(),
        c.lack == 0,
        keeps(c.probs, odds, bits),
        decisions_wf(ds, bits),
        0 <= rest < widened(last_range(c.range as int, odds, ds)) || rest == 0,
        c.code == coded(c.range as int, odds, ds, rest).0,
        c.input == coded(c.range as int, odds, ds, rest).1 + more,
    ensures
        finds(c, ds),
        ({
            let e = behind(c, ds);
            &&& e.wf()
            &&& e.lack == 0
            &&& rest == 0 ==> e.code == 0
            &&& normalize(e).code == rest
            &&& normalize(e).lack == 0
            &&& normalize(e).input == more
            &&& e.input.len() <= more.len() + 1
        }),
    decreases ds.len(),
{
    let range = c.range as int;
    if ds.len() == 0 {
        assert(rest < 0x1_0000_0000);
        assert(c.range < 0x100_0000 ==> c.input[0] == (rest % 0x100) as u8);
        assert(c.range < 0x100_0000 ==> c.input.drop_first() =~= more);
        assert(c.range >= 0x100_0000 ==> c.input =~= more);
        lemma_normalize(c);
    } else {
        let d = ds[0];
        let x = d.place;
        let later = ds.drop_first();
        let r = widened(range);
        let zero = share(r, odds, x);
        let next = narrowed(r, odds, d);
        let (code, bytes) = coded(next, learned(odds, d), later, rest);
        let n = normalize(c);
        lemma_normalize(c);
        let (e, b) = read_at(c, x);
        if x != Place::Even {
            lemma_index_bound(x, bits);
            assert(c.probs[x.index()] == odds[x]);
            lemma_share(r, odds[x]);
            lemma_bit(c, x.index());
        } else {
            lemma_direct_bits(c, 0, 1);
            reveal_with_fuel(direct_bits, 2);
        }
        let value: u16 = learned(odds, d)[x] as u16;
        let e2 = Coding {
            range: next as u32,
            code: 0,
            input: c.input,
            lack: 0,
            probs: if x == Place::Even {
                c.probs
            } else {
                c.probs.update(x.index(), value)
            },
        };
        if x != Place::Even {
            lemma_keeps(c.probs, odds, bits, d, value);
        }
        lemma_coded_bound(e2, learned(odds, d), later, bits, rest);
        let all = if d.bit == 0 {
            code
        } else {
            code + zero
        };
        assert(0 <= all < r);
        if range < 0x100_0000 {
            assert(c.input[0] == (all % 0x100) as u8);
            assert(c.input.drop_first() =~= bytes + more);
            assert(n.code == all);
        } else {
            assert(n.code == all);
        }
        assert(n.range == r);
        assert(n.input =~= bytes + more);
        assert(b == d.bit);
        assert(e.range == next);
        assert(e.code == code);
        assert(e.input == bytes + more);
        assert(e.probs =~= e2.probs);
        lemma_coded_is_read(e, learned(odds, d), later, bits, rest, more);
    }
}

} // verus!
