//! The range coder as mathematics: what one bit of an LZMA payload is.
//!
//! An LZMA payload is a string of bits, each coded against an adaptive
//! probability. `Coding` is everything the meaning of the next bit depends on:
//! the coder's two registers, the probabilities, and the bytes still to come.

use vstd::prelude::*;

verus! {

/// The range is brought back above this value before every bit.
pub const TOP: u32 = 0x100_0000;

/// Probabilities are counted in parts of this total.
pub const BIT_MODEL_TOTAL: u16 = 2048;

/// A bit moves its probability by one part in thirty-two.
pub const MOVE_FACTOR: u16 = 32;

/// The smallest value a probability can fall to.
pub const PROB_MIN: u16 = 31;

/// The largest value a probability can rise to.
pub const PROB_MAX: u16 = 2017;

/// The state of the range coder, the probability model and the input.
#[verifier::ext_equal]
pub struct Coding {
    pub range: u32,
    pub code: u32,
    /// The bytes not taken in yet.
    pub input: Seq<u8>,
    /// How many bytes were wanted after the input had run out. Each of them
    /// was taken to be zero.
    pub lack: nat,
    pub probs: Seq<u16>,
}

impl Coding {
    /// The range is one that a bit can leave behind, and every probability is
    /// one that adaptation can reach.
    pub open spec fn wf(self) -> bool {
        &&& 67 * self.range >= TOP
        &&& probs_wf(self.probs)
    }

    /// The same coder with `more` appended to its input.
    pub open spec fn feed(self, more: Seq<u8>) -> Coding {
        Coding { input: self.input + more, ..self }
    }
}

/// Every probability lies between the two values where adaptation stops.
pub open spec fn probs_wf(probs: Seq<u16>) -> bool {
    forall|i: int| 0 <= i < probs.len() ==> PROB_MIN <= #[trigger] probs[i] <= PROB_MAX
}

/// Brings the range back above `TOP` by taking in one byte, where it is below.
pub open spec fn normalize(c: Coding) -> Coding {
    if c.range < TOP {
        let byte: u8 = if c.input.len() > 0 { c.input[0] } else { 0 };
        Coding {
            range: (c.range * 256) as u32,
            code: ((c.code * 256 + byte) % 0x1_0000_0000) as u32,
            input: if c.input.len() > 0 { c.input.drop_first() } else { c.input },
            lack: if c.input.len() > 0 { c.lack } else { c.lack + 1 },
            probs: c.probs,
        }
    } else {
        c
    }
}

/// The part of the range that a zero takes, at probability `prob`.
pub open spec fn bound(range: u32, prob: u16) -> int {
    (range as int / 2048) * prob
}

/// The probability of a zero after a zero was seen.
pub open spec fn prob_up(prob: u16) -> u16 {
    (prob + (BIT_MODEL_TOTAL - prob) / MOVE_FACTOR as int) as u16
}

/// The probability of a zero after a one was seen.
pub open spec fn prob_down(prob: u16) -> u16 {
    (prob - prob as int / MOVE_FACTOR as int) as u16
}

/// One bit against probability number `i`: the coder after it, and the bit.
pub open spec fn bit(c: Coding, i: int) -> (Coding, int) {
    let n = normalize(c);
    let b = bound(n.range, n.probs[i]);
    if n.code < b {
        (Coding { range: b as u32, probs: n.probs.update(i, prob_up(n.probs[i])), ..n }, 0)
    } else {
        (
            Coding {
                range: (n.range - b) as u32,
                code: (n.code - b) as u32,
                probs: n.probs.update(i, prob_down(n.probs[i])),
                ..n
            },
            1,
        )
    }
}

/// One bit without a model, which halves the range. A one is a code that lies
/// at or above the half, by less than half of all codes.
pub open spec fn direct_bit(c: Coding) -> (Coding, int) {
    let n = normalize(c);
    let half = n.range as int / 2;
    if 0 <= n.code - half < 0x8000_0000 {
        (Coding { range: half as u32, code: (n.code - half) as u32, ..n }, 1)
    } else {
        (Coding { range: half as u32, ..n }, 0)
    }
}

/// `count` bits without a model, the most significant first, behind the bits
/// already in `acc`.
pub open spec fn direct_bits(c: Coding, acc: int, count: nat) -> (Coding, int)
    decreases count,
{
    if count == 0 {
        (c, acc)
    } else {
        let (c1, b) = direct_bit(c);
        direct_bits(c1, 2 * acc + b, (count - 1) as nat)
    }
}

/// `count` bits down a binary tree of probabilities from node `node`, the
/// most significant first. The children of node `n` are `2n` and `2n + 1`, and
/// the probability of node `n` is number `base + n`.
pub open spec fn tree_walk(c: Coding, base: int, node: int, count: nat) -> (Coding, int)
    decreases count,
{
    if count == 0 {
        (c, node)
    } else {
        let (c1, b) = bit(c, base + node);
        tree_walk(c1, base, 2 * node + b, (count - 1) as nat)
    }
}

} // verus!
