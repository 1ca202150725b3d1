//! The LZMA symbol language as mathematics: what a payload says, symbol by
//! symbol, and what each symbol does to the data decoded so far.

use vstd::arithmetic::power2::pow2;
use vstd::prelude::*;

use crate::coding::{bit, direct_bits, tree_walk, Coding};

verus! {

// Every probability lies in one array, in the order of these numbers. The
// tables that depend on the position and the state are indexed as
// `16 * position state + state`.
pub const NUM_POS_STATES_MAX: usize = 16;

pub const LEN_NUM_LOW_SYMBOLS: usize = 8;

pub const LEN_NUM_HIGH_SYMBOLS: usize = 256;

pub const LEN_CHOICE: usize = 0;

pub const LEN_CHOICE2: usize = 8;

pub const LEN_LOW: usize = 0;

pub const LEN_HIGH: usize = 256;

pub const NUM_LEN_PROBS: usize = 512;

pub const NUM_STATES: u32 = 12;

pub const NUM_LIT_STATES: u32 = 7;

pub const START_POS_MODEL_INDEX: u32 = 4;

pub const END_POS_MODEL_INDEX: u32 = 14;

pub const NUM_FULL_DISTANCES: usize = 128;

pub const NUM_POS_SLOT_BITS: u32 = 6;

pub const NUM_LEN_TO_POS_STATES: u32 = 4;

pub const NUM_ALIGN_BITS: u32 = 4;

pub const ALIGN_TABLE_SIZE: usize = 16;

pub const MATCH_MIN_LEN: u32 = 2;

pub const SPEC_POS: usize = 0;

pub const IS_REP0_LONG: usize = 128;

pub const REP_LEN_CODER: usize = 384;

pub const LEN_CODER: usize = 896;

pub const IS_MATCH: usize = 1408;

pub const ALIGN: usize = 1664;

pub const IS_REP: usize = 1680;

pub const IS_REP_G0: usize = 1692;

pub const IS_REP_G1: usize = 1704;

pub const IS_REP_G2: usize = 1716;

pub const POS_SLOT: usize = 1728;

pub const LITERAL: usize = 1984;

pub const NUM_BASE_PROBS: usize = 1984;

/// The probabilities of one literal coder.
pub const LIT_SIZE: usize = 0x300;

/// The stride of the literal coders: a power of two, with a quarter of each
/// unused.
pub const LIT_STRIDE: usize = 0x400;

/// The distance that stands for the end of the payload.
pub const END_MARKER_DISTANCE: u32 = 0xFFFF_FFFF;

/// The parameters of a payload: the literal context, literal position and
/// position bits, and the size of the dictionary.
pub struct Props {
    pub lc: u32,
    pub lp: u32,
    pub pb: u32,
    pub dict: nat,
}

impl Props {
    pub open spec fn wf(self) -> bool {
        &&& self.lc <= 8
        &&& self.lp <= 4
        &&& self.pb <= 4
        &&& self.dict > 0
        &&& self.dict % 16 == 0
    }

    /// How many probabilities the parameters call for.
    pub open spec fn num_probs(self) -> nat {
        NUM_BASE_PROBS as nat + LIT_STRIDE as nat * pow2((self.lc + self.lp) as nat)
    }
}

/// One symbol of a payload.
#[derive(Clone, Copy, PartialEq, Eq, Structural)]
pub enum Symbol {
    /// A byte.
    Literal(u8),
    /// One byte from the last distance.
    ShortRep,
    /// A copy from one of the four last distances: which one, and the length.
    Rep(u32, u32),
    /// A copy from a fresh distance: the distance, zero for the last byte, and
    /// the length.
    Match(u32, u32),
    /// The end of the payload.
    EndMarker,
}

/// Everything a payload's meaning depends on between two symbols.
#[verifier::ext_equal]
pub struct Machine {
    pub coding: Coding,
    /// Which kinds of symbols came last, as a number below `NUM_STATES`.
    pub state: u32,
    /// The four last distances, each plus one.
    pub reps: Seq<u32>,
    /// Every byte decoded so far, behind what the dictionary was preset with.
    pub hist: Seq<u8>,
}

impl Machine {
    pub open spec fn wf(self, p: Props) -> bool {
        &&& self.coding.wf()
        &&& self.coding.probs.len() == p.num_probs()
        &&& self.state < NUM_STATES
        &&& self.reps.len() == 4
        &&& forall|i: int| 0 <= i < 4 ==> #[trigger] self.reps[i] >= 1
    }

    /// The same machine with `more` appended to its input.
    pub open spec fn feed(self, more: Seq<u8>) -> Machine {
        Machine { coding: self.coding.feed(more), ..self }
    }
}

/// How far back the dictionary reaches.
pub open spec fn reach(hist: Seq<u8>, dict: nat) -> nat {
    if hist.len() < dict {
        hist.len()
    } else {
        dict
    }
}

/// The byte `dist` before the last, or zero where the dictionary does not
/// reach that far.
pub open spec fn byte_back(hist: Seq<u8>, dict: nat, dist: int) -> u8 {
    if 0 <= dist < reach(hist, dict) {
        hist[hist.len() - 1 - dist]
    } else {
        0
    }
}

/// `hist` with `len` bytes more, each a copy of the one `dist` before the last.
pub open spec fn copied(hist: Seq<u8>, dist: int, len: nat) -> Seq<u8>
    decreases len,
{
    if len == 0 {
        hist
    } else {
        let h = copied(hist, dist, (len - 1) as nat);
        h.push(h[h.len() - 1 - dist])
    }
}

/// The eight bits of a literal that follows a match, from node `node`, with
/// the bits of `mb` ahead of it. While the bits agree with those of the match
/// byte the probability is taken from the row that the next of those bits
/// names, and from the first bit that differs on from row 0.
pub open spec fn matched_walk(
    c: Coding,
    base: int,
    mb: int,
    node: int,
    agree: bool,
    count: nat,
) -> (Coding, int)
    decreases count,
{
    if count == 0 {
        (c, node)
    } else {
        let expected = mb / 128;
        let row = if agree { 0x100 * (1 + expected) } else { 0 };
        let (c1, b) = bit(c, base + row + node);
        matched_walk(
            c1,
            base,
            (2 * mb) % 256,
            2 * node + b,
            agree && b == expected,
            (count - 1) as nat,
        )
    }
}

/// `count` bits, the least significant first, of which the first has the
/// weight `step`, added to `value`. The bits of each weight have probabilities
/// of their own for every value of the bits before.
pub open spec fn reverse_walk(c: Coding, base: int, step: int, value: int, count: nat) -> (
    Coding,
    int,
)
    decreases count,
{
    if count == 0 {
        (c, value)
    } else {
        let (c1, b) = bit(c, base + step + value);
        reverse_walk(c1, base, 2 * step, value + b * step, (count - 1) as nat)
    }
}

/// A value of `count` bits out of a tree of probabilities.
pub open spec fn tree_value(c: Coding, base: int, count: nat) -> (Coding, int) {
    let (c1, node) = tree_walk(c, base, 1, count);
    (c1, node - pow2(count))
}

/// A length, less the shortest there is.
pub open spec fn length(c: Coding, base: int, pos_state: int) -> (Coding, int) {
    let low = base + LEN_LOW + 16 * pos_state;
    let (c1, choice) = bit(c, base + LEN_CHOICE);
    if choice == 0 {
        tree_value(c1, low, 3)
    } else {
        let (c2, choice2) = bit(c1, base + LEN_CHOICE2);
        if choice2 == 0 {
            let (c3, v) = tree_value(c2, low + LEN_NUM_LOW_SYMBOLS, 3);
            (c3, LEN_NUM_LOW_SYMBOLS + v)
        } else {
            let (c3, v) = tree_value(c2, base + LEN_HIGH, 8);
            (c3, 2 * LEN_NUM_LOW_SYMBOLS + v)
        }
    }
}

/// What is left of a distance behind its slot.
pub open spec fn distance_rest(c: Coding, slot: int) -> (Coding, int) {
    if slot < START_POS_MODEL_INDEX {
        (c, slot)
    } else {
        let count = slot / 2 - 1;
        let top = 2 + slot % 2;
        if slot < END_POS_MODEL_INDEX {
            let first = top * pow2(count as nat);
            let (c1, v) = reverse_walk(c, SPEC_POS + first, 1, 0, count as nat);
            (c1, first + v)
        } else {
            let (c1, high) = direct_bits(c, top, (count - NUM_ALIGN_BITS) as nat);
            let (c2, v) = reverse_walk(c1, ALIGN as int, 1, 0, NUM_ALIGN_BITS as nat);
            (c2, 16 * high + v)
        }
    }
}

/// A fresh distance, for a match whose length is `len` above the shortest.
pub open spec fn distance(c: Coding, len: int) -> (Coding, int) {
    let len_state = if len < NUM_LEN_TO_POS_STATES { len } else { NUM_LEN_TO_POS_STATES - 1 };
    let (c1, slot) = tree_value(c, POS_SLOT + 64 * len_state, 6);
    distance_rest(c1, slot)
}

/// Which of the literal coders a literal belongs to: the low bits of its
/// position, then the high bits of the byte before it.
pub open spec fn literal_coder(p: Props, hist: Seq<u8>) -> int {
    let prev: int = if hist.len() > 0 { hist.last() as int } else { 0 };
    (hist.len() as int % pow2(p.lp as nat) as int) * pow2(p.lc as nat) + prev / pow2(
        (8 - p.lc) as nat,
    ) as int
}

/// The byte of a literal.
pub open spec fn literal(p: Props, m: Machine, c: Coding) -> (Coding, int) {
    let base = LITERAL + LIT_STRIDE * literal_coder(p, m.hist);
    if m.state < NUM_LIT_STATES {
        tree_value(c, base, 8)
    } else {
        let (c1, node) = matched_walk(
            c,
            base,
            byte_back(m.hist, p.dict, m.reps[0] - 1) as int,
            1,
            true,
            8,
        );
        (c1, node - 0x100)
    }
}

/// A copy from one of the last distances, behind the bit that says it is one.
pub open spec fn rep_symbol(c: Coding, state: int, pos_state: int) -> (Coding, Symbol) {
    let (c1, g0) = bit(c, IS_REP_G0 + state);
    if g0 == 0 {
        let (c2, long) = bit(c1, IS_REP0_LONG + 16 * pos_state + state);
        if long == 0 {
            (c2, Symbol::ShortRep)
        } else {
            let (c3, len) = length(c2, REP_LEN_CODER as int, pos_state);
            (c3, Symbol::Rep(0, (len + MATCH_MIN_LEN) as u32))
        }
    } else {
        let (c2, g1) = bit(c1, IS_REP_G1 + state);
        if g1 == 0 {
            let (c3, len) = length(c2, REP_LEN_CODER as int, pos_state);
            (c3, Symbol::Rep(1, (len + MATCH_MIN_LEN) as u32))
        } else {
            let (c3, g2) = bit(c2, IS_REP_G2 + state);
            let (c4, len) = length(c3, REP_LEN_CODER as int, pos_state);
            (c4, Symbol::Rep((2 + g2) as u32, (len + MATCH_MIN_LEN) as u32))
        }
    }
}

/// A copy from a fresh distance, or the end of the payload.
pub open spec fn match_symbol(c: Coding, pos_state: int) -> (Coding, Symbol) {
    let (c1, len) = length(c, LEN_CODER as int, pos_state);
    let (c2, dist) = distance(c1, len);
    if dist == END_MARKER_DISTANCE {
        (c2, Symbol::EndMarker)
    } else {
        (c2, Symbol::Match(dist as u32, (len + MATCH_MIN_LEN) as u32))
    }
}

/// The position's low bits, which choose among the tables of a symbol's first
/// bits.
pub open spec fn position_state(p: Props, hist: Seq<u8>) -> int {
    hist.len() as int % pow2(p.pb as nat) as int
}

/// The next symbol.
#[verifier::opaque]
pub open spec fn symbol(p: Props, m: Machine) -> (Coding, Symbol) {
    let pos_state = position_state(p, m.hist);
    let (c1, is_match) = bit(m.coding, IS_MATCH + 16 * pos_state + m.state);
    if is_match == 0 {
        let (c2, byte) = literal(p, m, c1);
        (c2, Symbol::Literal(byte as u8))
    } else {
        let (c2, is_rep) = bit(c1, IS_REP + m.state);
        if is_rep == 0 {
            match_symbol(c2, pos_state)
        } else {
            rep_symbol(c2, m.state as int, pos_state)
        }
    }
}

/// The state after a symbol. The end of the payload leaves it alone.
pub open spec fn next_state(state: u32, s: Symbol) -> u32 {
    match s {
        Symbol::Literal(_) => if state < 4 {
            0
        } else if state < 10 {
            (state - 3) as u32
        } else {
            (state - 6) as u32
        },
        Symbol::ShortRep => if state < NUM_LIT_STATES {
            9
        } else {
            11
        },
        Symbol::Rep(_, _) => if state < NUM_LIT_STATES {
            8
        } else {
            11
        },
        Symbol::Match(_, _) => if state < NUM_LIT_STATES {
            7
        } else {
            10
        },
        Symbol::EndMarker => state,
    }
}

/// The last distances after a symbol: the one it used comes to the front.
pub open spec fn next_reps(reps: Seq<u32>, s: Symbol) -> Seq<u32> {
    match s {
        Symbol::Rep(i, _) => if i == 0 {
            reps
        } else if i == 1 {
            seq![reps[1], reps[0], reps[2], reps[3]]
        } else if i == 2 {
            seq![reps[2], reps[0], reps[1], reps[3]]
        } else {
            seq![reps[3], reps[0], reps[1], reps[2]]
        },
        Symbol::Match(dist, _) => seq![(dist + 1) as u32, reps[0], reps[1], reps[2]],
        _ => reps,
    }
}

/// How a symbol ended.
#[derive(Clone, Copy, PartialEq, Eq, Structural)]
pub enum Outcome {
    /// It was carried out.
    Done,
    /// It was the end of the payload.
    EndMarker,
    /// It reaches back further than the dictionary.
    Overflow,
}

/// What a symbol does to the data: the bytes after it, and how it ended.
pub open spec fn carried_out(hist: Seq<u8>, dict: nat, reps: Seq<u32>, s: Symbol) -> (
    Seq<u8>,
    Outcome,
) {
    match s {
        Symbol::Literal(b) => (hist.push(b), Outcome::Done),
        Symbol::EndMarker => (hist, Outcome::EndMarker),
        _ => {
            let dist = next_reps(reps, s)[0] - 1;
            let len: nat = match s {
                Symbol::Rep(_, len) => len as nat,
                Symbol::Match(_, len) => len as nat,
                _ => 1,
            };
            if dist < reach(hist, dict) {
                (copied(hist, dist, len), Outcome::Done)
            } else {
                (hist, Outcome::Overflow)
            }
        },
    }
}

/// One symbol: the machine after it, and how it ended.
pub open spec fn step(p: Props, m: Machine) -> (Machine, Outcome) {
    let (c, s) = symbol(p, m);
    let (hist, outcome) = carried_out(m.hist, p.dict, m.reps, s);
    (
        Machine {
            coding: c,
            // A short repeat of nothing at all is refused before it counts.
            state: if s == Symbol::ShortRep && m.hist.len() == 0 {
                m.state
            } else {
                next_state(m.state, s)
            },
            reps: next_reps(m.reps, s),
            hist,
        },
        outcome,
    )
}

} // verus!
