//! The LZMA decoder: probabilities, state and last distances, and the symbols
//! decoded with them.

use vstd::arithmetic::power2::{lemma2_to64, lemma_pow2_adds, lemma_pow2_pos, lemma_pow2_unfold, pow2};
use vstd::bits::lemma_u32_shl_is_mul;
use vstd::prelude::*;

use crate::coding::{normalize, probs_wf, tree_walk, Coding};
use crate::error::Error;
use crate::locality::{
    lemma_copied, lemma_literal_coder, lemma_position_state, symbol_wf,
};
use crate::lz::{grown, LzDecoder};
use crate::progress::{
    enough, lemma_looped_steps, lemma_steps, looped, may_begin, reaches, steps,
};
use crate::range::{same_source, RangeDecoder, RangeReader};
use crate::symbol::{
    distance, length, literal, literal_coder, match_symbol, matched_walk, next_reps, position_state,
    rep_symbol, reverse_walk, step, symbol, tree_value, Machine, Outcome, Props, Symbol, ALIGN,
    END_MARKER_DISTANCE, END_POS_MODEL_INDEX, IS_MATCH, IS_REP, IS_REP0_LONG, IS_REP_G0, IS_REP_G1,
    IS_REP_G2, LEN_CHOICE, LEN_CHOICE2, LEN_CODER, LEN_HIGH, LEN_LOW, LEN_NUM_LOW_SYMBOLS, LITERAL,
    LIT_STRIDE, MATCH_MIN_LEN, NUM_ALIGN_BITS, NUM_BASE_PROBS, NUM_LEN_TO_POS_STATES,
    NUM_LIT_STATES, NUM_STATES, POS_SLOT, REP_LEN_CODER, SPEC_POS, START_POS_MODEL_INDEX,
};

verus! {

/// The probability that every bit starts with.
pub const PROB_INIT: u16 = 1024;

/// The decoder and its model are fit for the next bit.
pub open spec fn ready<R: RangeReader>(rc: RangeDecoder<R>, probs: Seq<u16>) -> bool {
    &&& rc.wf()
    &&& probs_wf(probs)
}

/// The second decoder and model are the first after some bits.
pub open spec fn goes_on<R: RangeReader>(
    rc0: RangeDecoder<R>,
    probs0: Seq<u16>,
    rc1: RangeDecoder<R>,
    probs1: Seq<u16>,
) -> bool {
    &&& ready(rc1, probs1)
    &&& probs1.len() == probs0.len()
    &&& same_source(rc1.inner, rc0.inner)
}

/// Two to the power of `n`.
fn power(n: u32) -> (r: u32)
    requires
        n <= 16,
    ensures
        r == pow2(n as nat),
        1 <= r <= 0x1_0000,
{
    proof {
        lemma2_to64();
        lemma_pow2_adds(n as nat, (16 - n) as nat);
        lemma_pow2_pos(n as nat);
        lemma_pow2_pos((16 - n) as nat);
        let x = pow2(n as nat) as int;
        let y = pow2((16 - n) as nat) as int;
        assert(x <= x * y) by (nonlinear_arith)
            requires
                x >= 1,
                y >= 1,
        ;
        assert(1 * x == x);
        lemma_u32_shl_is_mul(1, n);
    }
    1u32 << n
}

/// A value of `bits` bits out of the tree of probabilities at `base`. Its
/// first probability is not used.
fn tree<R: RangeReader>(
    rc: &mut RangeDecoder<R>,
    probs: &mut Vec<u16>,
    base: usize,
    bits: u32,
) -> (v: u32)
    requires
        ready(*old(rc), old(probs)@),
        1 <= bits <= 8,
        base + pow2(bits as nat) <= old(probs)@.len(),
    ensures
        goes_on(*old(rc), old(probs)@, *final(rc), final(probs)@),
        v < pow2(bits as nat),
        tree_value(
            old(rc).coding(old(probs)@),
            base as int,
            bits as nat,
        ) == (final(rc).coding(final(probs)@), v as int),
{
    let limit = power(bits);
    let mut node: u32 = 1;
    let mut left: u32 = bits;
    proof {
        lemma2_to64();
    }
    while left > 0
        invariant
            goes_on(*old(rc), old(probs)@, *rc, probs@),
            left <= bits <= 8,
            limit == pow2(bits as nat) <= 256,
            base + limit <= probs@.len(),
            1 <= node,
            node * pow2(left as nat) < 2 * limit,
            limit <= node * pow2(left as nat),
            (node + 1) * pow2(left as nat) <= 2 * limit,
            tree_walk(
                old(rc).coding(old(probs)@),
                base as int,
                1,
                bits as nat,
            ) == tree_walk(rc.coding(probs@), base as int, node as int, left as nat),
        decreases left,
    {
        proof {
            let half = pow2((left - 1) as nat) as int;
            let n = node as int;
            lemma_pow2_unfold(left as nat);
            lemma_pow2_pos((left - 1) as nat);
            assert((n + 1) * (2 * half) == 2 * ((n + 1) * half)) by (nonlinear_arith);
            assert((n + 1) * half >= n + 1) by (nonlinear_arith)
                requires
                    n >= 1,
                    half >= 1,
            ;
            assert((2 * n) * half == n * (2 * half)) by (nonlinear_arith);
            assert((2 * n + 1) * half == n * (2 * half) + half) by (nonlinear_arith);
            assert((2 * n + 1 + 1) * half == (n + 1) * (2 * half)) by (nonlinear_arith);
            assert((n + 1) * (2 * half) == n * (2 * half) + 2 * half) by (nonlinear_arith);
            assert(node < limit);
            assert(base + node < probs.len());
        }
        let b = rc.decode_bit(probs, base + node as usize);
        node = 2 * node + b;
        left = left - 1;
    }
    proof {
        assert(node * pow2(0) == node) by (nonlinear_arith)
            requires
                pow2(0) == 1,
        ;
        lemma2_to64();
    }
    node - limit
}

/// A literal against `match_byte`, over the probabilities of one literal coder.
fn matched_literal<R: RangeReader>(
    rc: &mut RangeDecoder<R>,
    probs: &mut Vec<u16>,
    base: usize,
    match_byte: u8,
) -> (v: u32)
    requires
        ready(*old(rc), old(probs)@),
        base + 0x300 <= old(probs)@.len(),
    ensures
        goes_on(*old(rc), old(probs)@, *final(rc), final(probs)@),
        v < 0x100,
        matched_walk(
            old(rc).coding(old(probs)@),
            base as int,
            match_byte as int,
            1,
            true,
            8,
        ) == (final(rc).coding(final(probs)@), v + 0x100),
{
    let mut mb: u32 = match_byte as u32;
    let mut agree = true;
    let mut node: u32 = 1;
    let mut left: u32 = 8;
    proof {
        lemma2_to64();
    }
    while left > 0
        invariant
            goes_on(*old(rc), old(probs)@, *rc, probs@),
            left <= 8,
            base + 0x300 <= probs@.len(),
            mb < 256,
            1 <= node,
            0x100 <= node * pow2(left as nat),
            (node + 1) * pow2(left as nat) <= 0x200,
            matched_walk(
                old(rc).coding(old(probs)@),
                base as int,
                match_byte as int,
                1,
                true,
                8,
            ) == matched_walk(
                rc.coding(probs@),
                base as int,
                mb as int,
                node as int,
                agree,
                left as nat,
            ),
        decreases left,
    {
        proof {
            let half = pow2((left - 1) as nat) as int;
            let n = node as int;
            lemma_pow2_unfold(left as nat);
            lemma_pow2_pos((left - 1) as nat);
            assert((n + 1) * (2 * half) == 2 * ((n + 1) * half)) by (nonlinear_arith);
            assert((n + 1) * half >= n + 1) by (nonlinear_arith)
                requires
                    n >= 1,
                    half >= 1,
            ;
            assert((2 * n) * half == n * (2 * half)) by (nonlinear_arith);
            assert((2 * n + 1) * half == n * (2 * half) + half) by (nonlinear_arith);
            assert((2 * n + 1 + 1) * half == (n + 1) * (2 * half)) by (nonlinear_arith);
            assert((n + 1) * (2 * half) == n * (2 * half) + 2 * half) by (nonlinear_arith);
            assert(node < 0x100);
        }
        let expected = mb / 128;
        let row: u32 = if agree { 0x100 * (1 + expected) } else { 0 };
        assert(base + row + node < probs.len());
        let b = rc.decode_bit(probs, base + (row + node) as usize);
        node = 2 * node + b;
        agree = agree && b == expected;
        mb = (2 * mb) % 256;
        left = left - 1;
    }
    proof {
        assert(node * pow2(0) == node) by (nonlinear_arith)
            requires
                pow2(0) == 1,
        ;
        assert((node + 1) * pow2(0) == node + 1) by (nonlinear_arith)
            requires
                pow2(0) == 1,
        ;
        lemma2_to64();
    }
    node - 0x100
}

/// A value of `count` bits, the least significant first, out of the tree of
/// probabilities at `base`.
fn reverse<R: RangeReader>(
    rc: &mut RangeDecoder<R>,
    probs: &mut Vec<u16>,
    base: usize,
    count: u32,
) -> (v: u32)
    requires
        ready(*old(rc), old(probs)@),
        count <= 8,
        base + pow2(count as nat) <= old(probs)@.len(),
    ensures
        goes_on(*old(rc), old(probs)@, *final(rc), final(probs)@),
        v < pow2(count as nat),
        reverse_walk(
            old(rc).coding(old(probs)@),
            base as int,
            1,
            0,
            count as nat,
        ) == (final(rc).coding(final(probs)@), v as int),
{
    let limit = power(count);
    let mut step: u32 = 1;
    let mut value: u32 = 0;
    let mut left: u32 = count;
    proof {
        lemma2_to64();
        lemma_pow2_adds(count as nat, (8 - count) as nat);
        lemma_pow2_pos((8 - count) as nat);
        let x = pow2(count as nat) as int;
        let y = pow2((8 - count) as nat) as int;
        assert(x <= x * y) by (nonlinear_arith)
            requires
                x >= 0,
                y >= 1,
        ;
    }
    while left > 0
        invariant
            goes_on(*old(rc), old(probs)@, *rc, probs@),
            left <= count <= 8,
            limit == pow2(count as nat) <= 256,
            base + limit <= probs@.len(),
            value < step,
            step * pow2(left as nat) == limit,
            reverse_walk(
                old(rc).coding(old(probs)@),
                base as int,
                1,
                0,
                count as nat,
            ) == reverse_walk(
                rc.coding(probs@),
                base as int,
                step as int,
                value as int,
                left as nat,
            ),
        decreases left,
    {
        proof {
            let half = pow2((left - 1) as nat) as int;
            let s = step as int;
            lemma_pow2_unfold(left as nat);
            lemma_pow2_pos((left - 1) as nat);
            assert(s * (2 * half) == (2 * s) * half) by (nonlinear_arith);
            assert((2 * s) * half >= 2 * s) by (nonlinear_arith)
                requires
                    s >= 0,
                    half >= 1,
            ;
            assert(base + (step + value) < probs.len());
        }
        let b = rc.decode_bit(probs, base + (step + value) as usize);
        proof {
            let s = step as int;
            assert(b == 0 ==> b * s == 0) by (nonlinear_arith);
            assert(b == 1 ==> b * s == s) by (nonlinear_arith);
        }
        if b == 1 {
            value = value + step;
        }
        step = 2 * step;
        left = left - 1;
    }
    proof {
        assert(step * pow2(0) == step) by (nonlinear_arith)
            requires
                pow2(0) == 1,
        ;
        lemma2_to64();
    }
    value
}

/// A length, less the shortest there is.
fn decode_len<R: RangeReader>(
    probs: &mut Vec<u16>,
    rc: &mut RangeDecoder<R>,
    base: usize,
    pos_state: u32,
) -> (v: u32)
    requires
        ready(*old(rc), old(probs)@),
        base + 512 <= old(probs)@.len(),
        pos_state < 16,
    ensures
        goes_on(*old(rc), old(probs)@, *final(rc), final(probs)@),
        v <= 271,
        length(
            old(rc).coding(old(probs)@),
            base as int,
            pos_state as int,
        ) == (final(rc).coding(final(probs)@), v as int),
{
    proof {
        lemma2_to64();
        assert(base + 512 <= probs.len());
    }
    let low = base + LEN_LOW + 16 * pos_state as usize;
    if rc.decode_bit(probs, base + LEN_CHOICE) == 0 {
        tree(rc, probs, low, 3)
    } else if rc.decode_bit(probs, base + LEN_CHOICE2) == 0 {
        LEN_NUM_LOW_SYMBOLS as u32 + tree(rc, probs, low + LEN_NUM_LOW_SYMBOLS, 3)
    } else {
        2 * LEN_NUM_LOW_SYMBOLS as u32 + tree(rc, probs, base + LEN_HIGH, 8)
    }
}

/// A fresh distance, for a match whose length is `len` above the shortest.
fn decode_distance<R: RangeReader>(
    probs: &mut Vec<u16>,
    rc: &mut RangeDecoder<R>,
    len: u32,
) -> (v: u32)
    requires
        ready(*old(rc), old(probs)@),
        NUM_BASE_PROBS <= old(probs)@.len(),
    ensures
        goes_on(*old(rc), old(probs)@, *final(rc), final(probs)@),
        distance(old(rc).coding(old(probs)@), len as int) == (
            final(rc).coding(final(probs)@),
            v as int,
        ),
{
    proof {
        lemma2_to64();
    }
    let len_state: u32 = if len < NUM_LEN_TO_POS_STATES { len } else { NUM_LEN_TO_POS_STATES - 1 };
    let slot = tree(rc, probs, POS_SLOT + 64 * len_state as usize, 6);
    if slot < START_POS_MODEL_INDEX {
        return slot;
    }
    let count: u32 = slot / 2 - 1;
    let top: u32 = 2 + slot % 2;
    if slot < END_POS_MODEL_INDEX {
        let span = power(count);
        proof {
            assert(top == 2 || top == 3);
            assert(top * span == 2 * span || top * span == 3 * span);
            assert(count == 1 || count == 2 || count == 3 || count == 4 || count == 5);
            assert(pow2(count as nat) <= 32);
        }
        let first: u32 = if top == 2 { 2 * span } else { 3 * span };
        assert(first == top * pow2(count as nat));
        let v = reverse(rc, probs, SPEC_POS + first as usize, count);
        first + v
    } else {
        let high = rc.decode_direct_bits(top, count - NUM_ALIGN_BITS);
        let v = reverse(rc, probs, ALIGN, NUM_ALIGN_BITS);
        16 * high + v
    }
}

/// A copy from one of the last distances, behind the bit that says it is one.
fn decode_rep<R: RangeReader>(
    probs: &mut Vec<u16>,
    rc: &mut RangeDecoder<R>,
    state: u32,
    pos_state: u32,
) -> (s: Symbol)
    requires
        ready(*old(rc), old(probs)@),
        NUM_BASE_PROBS <= old(probs)@.len(),
        state < NUM_STATES,
        pos_state < 16,
    ensures
        goes_on(*old(rc), old(probs)@, *final(rc), final(probs)@),
        symbol_wf(s),
        rep_symbol(
            old(rc).coding(old(probs)@),
            state as int,
            pos_state as int,
        ) == (final(rc).coding(final(probs)@), s),
{
    let st = state as usize;
    let index = if rc.decode_bit(probs, IS_REP_G0 + st) == 0 {
        if rc.decode_bit(probs, IS_REP0_LONG + 16 * pos_state as usize + st) == 0 {
            return Symbol::ShortRep;
        }
        0u32
    } else if rc.decode_bit(probs, IS_REP_G1 + st) == 0 {
        1u32
    } else {
        2 + rc.decode_bit(probs, IS_REP_G2 + st)
    };
    let len = decode_len(probs, rc, REP_LEN_CODER, pos_state);
    Symbol::Rep(index, len + MATCH_MIN_LEN)
}

/// A copy from a fresh distance, or the end of the payload.
fn decode_match<R: RangeReader>(
    probs: &mut Vec<u16>,
    rc: &mut RangeDecoder<R>,
    pos_state: u32,
) -> (s: Symbol)
    requires
        ready(*old(rc), old(probs)@),
        NUM_BASE_PROBS <= old(probs)@.len(),
        pos_state < 16,
    ensures
        goes_on(*old(rc), old(probs)@, *final(rc), final(probs)@),
        symbol_wf(s),
        match_symbol(old(rc).coding(old(probs)@), pos_state as int) == (
            final(rc).coding(final(probs)@),
            s,
        ),
{
    let len = decode_len(probs, rc, LEN_CODER, pos_state);
    let dist = decode_distance(probs, rc, len);
    if dist == END_MARKER_DISTANCE {
        Symbol::EndMarker
    } else {
        Symbol::Match(dist, len + MATCH_MIN_LEN)
    }
}

/// A decoder as mathematics: its parameters and its model.
#[verifier::ext_equal]
pub struct Model {
    pub lc: u32,
    pub lp: u32,
    pub pb: u32,
    pub probs: Seq<u16>,
    pub state: u32,
    pub reps: Seq<u32>,
    /// The end of the payload has been seen.
    pub end_marker: bool,
}

impl Model {
    /// The parameters, with a dictionary of `dict` bytes.
    pub open spec fn props(self, dict: nat) -> Props {
        Props { lc: self.lc, lp: self.lp, pb: self.pb, dict }
    }

    pub open spec fn wf(self) -> bool {
        &&& self.lc <= 8
        &&& self.lp <= 4
        &&& self.pb <= 4
        &&& self.probs.len() == self.props(0).num_probs()
        &&& probs_wf(self.probs)
        &&& self.state < NUM_STATES
        &&& self.reps.len() == 4
        &&& forall|i: int| 0 <= i < 4 ==> #[trigger] self.reps[i] >= 1
    }

    /// The machine with this model, and with `coding` for its coder.
    pub open spec fn machine(self, coding: Coding, hist: Seq<u8>) -> Machine {
        Machine { coding, state: self.state, reps: self.reps, hist }
    }

    /// A model that nothing was decoded with yet.
    pub open spec fn fresh(lc: u32, lp: u32, pb: u32) -> Model {
        Model {
            lc,
            lp,
            pb,
            probs: Seq::new(
                (Props { lc, lp, pb, dict: 0 }).num_probs(),
                |i: int| PROB_INIT,
            ),
            state: 0,
            reps: seq![1u32, 1u32, 1u32, 1u32],
            end_marker: false,
        }
    }
}

/// A payload that stands at `m` goes on, symbol by symbol, to one that is not
/// carried out, which leaves it at `n`: the end of the payload, or a distance
/// that reaches too far back.
pub open spec fn stops(
    p: Props,
    m: Machine,
    limit: Option<nat>,
    floor: nat,
    n: Machine,
    end_marker: bool,
) -> bool {
    exists|k: Machine| #[trigger]
        reaches(p, m, limit, floor, k) && may_begin(k, limit, floor) && step(p, k) == (
            n,
            if end_marker {
                Outcome::EndMarker
            } else {
                Outcome::Overflow
            },
        )
}

/// What symbol after symbol comes to is what a loop over the symbols comes to,
/// whoever decodes them: where no more may be begun, or where one was not carried
/// out.
pub proof fn lemma_run_is_the_loop(
    p: Props,
    m: Machine,
    limit: nat,
    floor: nat,
    n: Machine,
    end_marker: bool,
)
    requires
        p.wf(),
        m.wf(p),
    ensures
        reaches(p, m, Some(limit), floor, n) && !may_begin(n, Some(limit), floor) ==> looped(
            p,
            m,
            limit,
            floor,
        ) == (n, Outcome::Done),
        stops(p, m, Some(limit), floor, n, end_marker) ==> looped(p, m, limit, floor) == (
            n,
            if end_marker {
                Outcome::EndMarker
            } else {
                Outcome::Overflow
            },
        ),
{
    if reaches(p, m, Some(limit), floor, n) && !may_begin(n, Some(limit), floor) {
        let c = choose|c: nat| #[trigger] steps(p, m, Some(limit), floor, c) == Some(n);
        lemma_steps(p, m, Some(limit), floor, c);
        lemma_looped_steps(p, m, limit, floor, c);
    }
    if stops(p, m, Some(limit), floor, n, end_marker) {
        let k = choose|k: Machine| #[trigger]
            reaches(p, m, Some(limit), floor, k) && may_begin(k, Some(limit), floor) && step(p, k)
                == (
                n,
                if end_marker {
                    Outcome::EndMarker
                } else {
                    Outcome::Overflow
                },
            );
        let c = choose|c: nat| #[trigger] steps(p, m, Some(limit), floor, c) == Some(k);
        lemma_steps(p, m, Some(limit), floor, c);
        lemma_looped_steps(p, m, limit, floor, c);
    }
}

/// What a run of the decoder makes of the payload that stands at `m`. With the
/// end of the payload already behind it nothing happens. Otherwise symbols are
/// decoded until there are `limit` bytes, until fewer than `floor` bytes of
/// input are left, or until one is not carried out. Where the last byte that
/// was asked for came out, and more than `tail` bytes are left, the coder is
/// normalized.
#[verifier::opaque]
pub open spec fn decoded(
    p: Props,
    m: Machine,
    ended: bool,
    limit: Option<nat>,
    floor: nat,
    tail: int,
    n: Machine,
    end_marker: bool,
    ok: bool,
) -> bool {
    if ended {
        !ok && n == m && end_marker
    } else if ok {
        exists|k: Machine| #[trigger]
            reaches(p, m, limit, floor, k) && n == (Machine {
                coding: if enough(k, limit) && k.coding.input.len() > tail {
                    normalize(k.coding)
                } else {
                    k.coding
                },
                ..k
            })
    } else {
        stops(p, m, limit, floor, n, end_marker)
    }
}

/// The decoder: the probabilities, the state, and the four last distances,
/// each plus one.
pub struct LzmaDecoder {
    probs: Vec<u16>,
    lc: u32,
    lp: u32,
    pb: u32,
    state: u32,
    reps: [u32; 4],
    end_marker: bool,
}

impl View for LzmaDecoder {
    type V = Model;

    closed spec fn view(&self) -> Model {
        Model {
            lc: self.lc,
            lp: self.lp,
            pb: self.pb,
            probs: self.probs@,
            state: self.state,
            reps: self.reps@,
            end_marker: self.end_marker,
        }
    }
}

impl LzmaDecoder {
    pub open spec fn wf(&self) -> bool {
        self@.wf()
    }

    /// A decoder for a payload with these parameters.
    pub fn new(lc: u32, lp: u32, pb: u32) -> (d: Self)
        requires
            lc <= 8,
            lp <= 4,
            pb <= 4,
        ensures
            d.wf(),
            d@ == Model::fresh(lc, lp, pb),
    {
        let coders = power(lc + lp);
        proof {
            lemma2_to64();
            lemma_pow2_adds((lc + lp) as nat, (12 - lc - lp) as nat);
            lemma_pow2_pos((12 - lc - lp) as nat);
            let x = pow2((lc + lp) as nat) as int;
            let y = pow2((12 - lc - lp) as nat) as int;
            assert(x <= x * y) by (nonlinear_arith)
                requires
                    x >= 0,
                    y >= 1,
            ;
        }
        let n: usize = NUM_BASE_PROBS + LIT_STRIDE * coders as usize;
        let d = LzmaDecoder {
            probs: vec![PROB_INIT; n],
            lc,
            lp,
            pb,
            state: 0,
            reps: [1, 1, 1, 1],
            end_marker: false,
        };
        assert(d@ =~= Model::fresh(lc, lp, pb));
        d
    }

    /// Forgets everything but the parameters.
    pub fn reset(&mut self)
        requires
            old(self).wf(),
        ensures
            final(self).wf(),
            final(self)@ == Model::fresh(old(self)@.lc, old(self)@.lp, old(self)@.pb),
    {
        *self = LzmaDecoder::new(self.lc, self.lp, self.pb);
    }

    /// Whether the last payload has come to its end marker. The marker comes
    /// out of `decode` as an error, and this says whether the error was it.
    pub fn end_marker_detected(&self) -> (r: bool)
        ensures
            r == self@.end_marker,
    {
        self.end_marker
    }

    /// The byte of a literal.
    fn decode_literal<R: RangeReader>(
        &mut self,
        lz: &LzDecoder,
        rc: &mut RangeDecoder<R>,
    ) -> (byte: u8)
        requires
            old(self).wf(),
            lz.wf(),
            lz@.pending == 0,
            old(rc).wf(),
        ensures
            final(self)@ == (Model { probs: final(self)@.probs, ..old(self)@ }),
            goes_on(*old(rc), old(self)@.probs, *final(rc), final(self)@.probs),
            literal(
                old(self)@.props(lz@.size),
                old(self)@.machine(old(rc).coding(old(self)@.probs), lz@.hist),
                old(rc).coding(old(self)@.probs),
            ) == (final(rc).coding(final(self)@.probs), byte as int),
    {
        let ghost p = self@.props(lz@.size);
        proof {
            lz.lemma_wf();
            lemma_literal_coder(p, lz@.hist);
            lemma2_to64();
            lemma_low_bits(lz@.hist.len(), self.lp as nat);
            assert(self.probs@.len() == p.num_probs());
            assert(self.probs@.len() <= self.probs.len());
        }
        let position: u32 = (lz.get_pos() % 16) as u32 % power(self.lp);
        let previous: u32 = lz.get_byte(0) as u32;
        let high: u32 = previous / power(8 - self.lc);
        let row = power(self.lc);
        proof {
            lemma_rows(position as int, row as int);
            assert(literal_coder(p, lz@.hist) == position * row + high);
        }
        let coder: u32 = position * row + high;
        let base: usize = LITERAL + LIT_STRIDE * coder as usize;
        let v = if self.state < NUM_LIT_STATES {
            tree(rc, &mut self.probs, base, 8)
        } else {
            let match_byte = lz.get_byte((self.reps[0] - 1) as usize);
            matched_literal(rc, &mut self.probs, base, match_byte)
        };
        v as u8
    }

    /// The next symbol.
    fn next_symbol<R: RangeReader>(
        &mut self,
        lz: &LzDecoder,
        rc: &mut RangeDecoder<R>,
    ) -> (s: Symbol)
        requires
            old(self).wf(),
            lz.wf(),
            lz@.pending == 0,
            old(rc).wf(),
        ensures
            final(self)@ == (Model { probs: final(self)@.probs, ..old(self)@ }),
            goes_on(*old(rc), old(self)@.probs, *final(rc), final(self)@.probs),
            symbol_wf(s),
            symbol(
                old(self)@.props(lz@.size),
                old(self)@.machine(old(rc).coding(old(self)@.probs), lz@.hist),
            ) == (final(rc).coding(final(self)@.probs), s),
    {
        proof {
            reveal(symbol);
            lz.lemma_wf();
            lemma_position_state(self@.props(lz@.size), lz@.hist);
            lemma2_to64();
            lemma_low_bits(lz@.hist.len(), self.pb as nat);
        }
        let pos_state: u32 = (lz.get_pos() % 16) as u32 % power(self.pb);
        assert(pos_state == position_state(self@.props(lz@.size), lz@.hist));
        let state = self.state;
        if rc.decode_bit(&mut self.probs, IS_MATCH + 16 * pos_state as usize + state as usize)
            == 0 {
            let byte = self.decode_literal(lz, rc);
            Symbol::Literal(byte)
        } else if rc.decode_bit(&mut self.probs, IS_REP + state as usize) == 0 {
            decode_match(&mut self.probs, rc, pos_state)
        } else {
            decode_rep(&mut self.probs, rc, state, pos_state)
        }
    }

    /// Brings the distance that a copy uses to the front of the last ones.
    fn rotate(&mut self, s: Symbol)
        requires
            old(self).wf(),
            symbol_wf(s),
        ensures
            final(self).wf(),
            final(self)@ == (Model { reps: next_reps(old(self)@.reps, s), ..old(self)@ }),
    {
        let r = self.reps;
        match s {
            Symbol::Rep(i, _) => {
                if i == 1 {
                    self.reps = [r[1], r[0], r[2], r[3]];
                } else if i == 2 {
                    self.reps = [r[2], r[0], r[1], r[3]];
                } else if i == 3 {
                    self.reps = [r[3], r[0], r[1], r[2]];
                }
            },
            Symbol::Match(dist, _) => {
                self.reps = [dist + 1, r[0], r[1], r[2]];
            },
            _ => {},
        }
        assert(self@.reps =~= next_reps(old(self)@.reps, s));
    }

    /// One symbol.
    fn decode_symbol<R: RangeReader>(
        &mut self,
        lz: &mut LzDecoder,
        rc: &mut RangeDecoder<R>,
    ) -> (r: Result<(), Error>)
        requires
            old(self).wf(),
            !old(self)@.end_marker,
            old(lz).wf(),
            old(lz)@.allocated,
            old(lz)@.pending == 0,
            old(lz)@.room > 0,
            old(rc).wf(),
        ensures
            final(self).wf(),
            final(self)@.props(0) == old(self)@.props(0),
            final(lz).wf(),
            grown(old(lz)@, final(lz)@),
            final(lz)@.pending > 0 ==> final(lz)@.room == 0,
            final(rc).wf(),
            same_source(final(rc).inner, old(rc).inner),
            r is Ok ==> final(lz)@.hist.len() > old(lz)@.hist.len(),
            r is Ok ==> !final(self)@.end_marker,
            r is Err ==> r == Err::<(), Error>(Error::DistOverflow),
            step(
                old(self)@.props(old(lz)@.size),
                old(self)@.machine(old(rc).coding(old(self)@.probs), old(lz)@.ideal()),
            ) == (
                final(self)@.machine(final(rc).coding(final(self)@.probs), final(lz)@.ideal()),
                if r is Ok {
                    Outcome::Done
                } else if final(self)@.end_marker {
                    Outcome::EndMarker
                } else {
                    Outcome::Overflow
                },
            ),
    {
        let ghost m = self@.machine(rc.coding(self@.probs), lz@.ideal());
        let ghost w = lz@;
        proof {
            lz.lemma_wf();
        }
        let s = self.next_symbol(lz, rc);
        let state = self.state;
        let len: usize = match s {
            Symbol::Literal(byte) => {
                self.state = if state < 4 {
                    0
                } else if state < 10 {
                    state - 3
                } else {
                    state - 6
                };
                lz.put_byte(byte);
                proof {
                    lz.lemma_wf();
                    let n = self@.machine(rc.coding(self@.probs), lz@.ideal());
                    assert(step(self@.props(w.size), m).0 =~= n);
                }
                return Ok(());
            },
            Symbol::EndMarker => {
                self.end_marker = true;
                proof {
                    let n = self@.machine(rc.coding(self@.probs), lz@.ideal());
                    assert(step(self@.props(w.size), m).0 =~= n);
                }
                return Err(Error::DistOverflow);
            },
            Symbol::ShortRep => {
                if lz.full() == 0 {
                    proof {
                        let n = self@.machine(rc.coding(self@.probs), lz@.ideal());
                        assert(step(self@.props(w.size), m).0 =~= n);
                    }
                    return Err(Error::DistOverflow);
                }
                self.state = if state < NUM_LIT_STATES { 9 } else { 11 };
                1
            },
            Symbol::Rep(_, len) => {
                self.state = if state < NUM_LIT_STATES { 8 } else { 11 };
                len as usize
            },
            Symbol::Match(_, len) => {
                self.state = if state < NUM_LIT_STATES { 7 } else { 10 };
                len as usize
            },
        };
        self.rotate(s);
        let dist = (self.reps[0] - 1) as usize;
        let r = lz.repeat(dist, len);
        proof {
            if r is Ok {
                let n: nat = if len < w.room { len as nat } else { w.room };
                lemma_copied(w.hist, dist as int, n);
            }
            let n = self@.machine(rc.coding(self@.probs), lz@.ideal());
            assert(step(self@.props(w.size), m).0 =~= n);
        }
        r
    }

    /// Decodes symbols until the output is full, the input is down to its last
    /// bytes, or the payload ends or fails.
    fn run<R: RangeReader>(
        &mut self,
        lz: &mut LzDecoder,
        rc: &mut RangeDecoder<R>,
    ) -> (r: Result<(), Error>)
        requires
            old(self).wf(),
            !old(self)@.end_marker,
            old(lz).wf(),
            old(lz)@.allocated,
            old(lz)@.pending > 0 ==> old(lz)@.room == 0,
            old(rc).wf(),
        ensures
            final(self).wf(),
            final(self)@.props(0) == old(self)@.props(0),
            final(lz).wf(),
            grown(old(lz)@, final(lz)@),
            final(lz)@.pending > 0 ==> final(lz)@.room == 0,
            final(rc).wf(),
            same_source(final(rc).inner, old(rc).inner),
            r is Ok ==> !final(self)@.end_marker,
            r is Ok ==> final(lz)@.room == 0 || !final(rc).inner.may_start(),
            r is Ok && old(lz)@.room > 0 && old(rc).inner.may_start() ==> final(lz)@.hist.len()
                > old(lz)@.hist.len(),
            r is Err ==> r == Err::<(), Error>(Error::DistOverflow),
            ({
                let p = old(self)@.props(old(lz)@.size);
                let limit = Some(old(lz)@.hist.len() + old(lz)@.room);
                let floor = old(rc).inner.floor();
                let m = old(self)@.machine(old(rc).coding(old(self)@.probs), old(lz)@.ideal());
                let n = final(self)@.machine(
                    final(rc).coding(final(self)@.probs),
                    final(lz)@.ideal(),
                );
                &&& r is Ok ==> reaches(p, m, limit, floor, n)
                &&& r is Err ==> stops(p, m, limit, floor, n, final(self)@.end_marker)
                // Over a buffer, whose length says which symbols may be begun, this
                // is what decoding one symbol after the other comes to.
                &&& r is Err || !may_begin(n, limit, floor) ==> looped(p, m, limit->0, floor) == (
                    n,
                    if r is Ok {
                        Outcome::Done
                    } else if final(self)@.end_marker {
                        Outcome::EndMarker
                    } else {
                        Outcome::Overflow
                    },
                )
            }),
    {
        let ghost p = self@.props(lz@.size);
        let ghost limit = Some(lz@.hist.len() + lz@.room);
        let ghost floor = rc.inner.floor();
        let ghost m = self@.machine(rc.coding(self@.probs), lz@.ideal());
        let ghost mut count: nat = 0;
        proof {
            lz.lemma_wf();
            assert(p.wf());
            assert(m.wf(p));
        }
        while lz.has_space() && rc.inner.can_start_symbol()
            invariant
                p.wf(),
                m.wf(p),
                self.wf(),
                !self@.end_marker,
                self@.props(0) == old(self)@.props(0),
                lz.wf(),
                lz@.allocated,
                grown(old(lz)@, lz@),
                lz@.pending > 0 ==> lz@.room == 0,
                rc.wf(),
                same_source(rc.inner, old(rc).inner),
                p == old(self)@.props(old(lz)@.size),
                limit == Some(old(lz)@.hist.len() + old(lz)@.room),
                floor == old(rc).inner.floor(),
                m == old(self)@.machine(old(rc).coding(old(self)@.probs), old(lz)@.ideal()),
                steps(p, m, limit, floor, count) == Some(
                    self@.machine(rc.coding(self@.probs), lz@.ideal()),
                ),
                lz@.hist.len() == old(lz)@.hist.len() ==> {
                    &&& rc.inner == old(rc).inner
                    &&& lz@.room == old(lz)@.room
                },
            decreases lz@.room,
        {
            let ghost k = self@.machine(rc.coding(self@.probs), lz@.ideal());
            proof {
                lz.lemma_wf();
            }
            let r = self.decode_symbol(lz, rc);
            if r.is_err() {
                proof {
                    assert(reaches(p, m, limit, floor, k));
                    let n = self@.machine(rc.coding(self@.probs), lz@.ideal());
                    lemma_run_is_the_loop(p, m, limit->0, floor, n, self@.end_marker);
                }
                return r;
            }
            proof {
                count = count + 1;
            }
        }
        proof {
            let n = self@.machine(rc.coding(self@.probs), lz@.ideal());
            lemma_run_is_the_loop(p, m, limit->0, floor, n, false);
        }
        Ok(())
    }

    /// Decodes into `lz` until its output is full or `rc` cannot start another
    /// symbol.
    pub fn decode<R: RangeReader>(
        &mut self,
        lz: &mut LzDecoder,
        rc: &mut RangeDecoder<R>,
    ) -> (r: Result<(), Error>)
        requires
            old(self).wf(),
            old(lz).wf(),
            old(lz)@.allocated,
            old(rc).wf(),
        ensures
            final(self).wf(),
            final(self)@.props(0) == old(self)@.props(0),
            final(lz).wf(),
            grown(old(lz)@, final(lz)@),
            final(lz)@.pending > 0 ==> final(lz)@.room == 0,
            final(rc).wf(),
            same_source(final(rc).inner, old(rc).inner),
            r is Ok ==> !final(self)@.end_marker,
            r is Ok ==> final(lz)@.room == 0 || !final(rc).inner.may_start(),
            r is Ok && old(lz)@.room > 0 && old(rc).inner.may_start() ==> final(lz)@.hist.len()
                > old(lz)@.hist.len(),
            r is Err ==> r == Err::<(), Error>(Error::DistOverflow),
            decoded(
                old(self)@.props(old(lz)@.size),
                old(self)@.machine(old(rc).coding(old(self)@.probs), old(lz)@.ideal()),
                old(self)@.end_marker,
                Some(old(lz)@.hist.len() + old(lz)@.room),
                old(rc).inner.floor(),
                old(rc).inner.tail(),
                final(self)@.machine(final(rc).coding(final(self)@.probs), final(lz)@.ideal()),
                final(self)@.end_marker,
                r is Ok,
            ),
    {
        let ghost w = lz@;
        let ghost m = self@.machine(rc.coding(self@.probs), lz@.ideal());
        proof {
            reveal(decoded);
            lz.lemma_wf();
            let n: nat = if w.pending < w.room { w.pending } else { w.room };
            if w.pending > 0 {
                lemma_copied(w.hist, w.dist as int, n);
            }
        }
        lz.repeat_pending();
        if self.end_marker {
            return Err(Error::DistOverflow);
        }
        let r = self.run(lz, rc);
        if r.is_err() {
            return r;
        }
        let ghost k = self@.machine(rc.coding(self@.probs), lz@.ideal());
        proof {
            lz.lemma_wf();
        }
        if !lz.has_space() && rc.inner.can_normalize() {
            rc.normalize();
            assert(rc.coding(self@.probs) == normalize(k.coding));
        }
        proof {
            assert(reaches(
                old(self)@.props(w.size),
                m,
                Some(w.hist.len() + w.room),
                old(rc).inner.floor(),
                k,
            ));
        }
        Ok(())
    }
}


/// The low bits of a position can be told from its remainder by sixteen.
proof fn lemma_low_bits(n: nat, bits: nat)
    requires
        bits <= 4,
    ensures
        n as int % pow2(bits) as int == (n as int % 16) % (pow2(bits) as int),
{
    lemma2_to64();
    let x = n as int;
    if bits == 0 {
        assert(x % 1 == (x % 16) % 1);
    } else if bits == 1 {
        assert(x % 2 == (x % 16) % 2);
    } else if bits == 2 {
        assert(x % 4 == (x % 16) % 4);
    } else if bits == 3 {
        assert(x % 8 == (x % 16) % 8);
    } else {
        assert(x % 16 == (x % 16) % 16);
    }
}

proof fn lemma_rows(position: int, row: int)
    requires
        0 <= position < 16,
        1 <= row <= 0x1_0000,
    ensures
        0 <= position * row <= 0xF_0000,
{
    assert(0 <= position * row <= 15 * 0x1_0000) by (nonlinear_arith)
        requires
            0 <= position < 16,
            1 <= row <= 0x1_0000,
    ;
}

} // verus!
