//! The range decoder over a reader of compressed bytes.

use vstd::arithmetic::power2::{lemma2_to64, lemma_pow2_adds, lemma_pow2_pos, lemma_pow2_unfold, pow2};
use vstd::prelude::*;

use crate::accounting::lemma_bit;
use crate::coding::{bit, bound, direct_bit, direct_bits, normalize, probs_wf, Coding, TOP};

verus! {

/// The two registers of a range coder.
#[derive(Clone, Copy)]
pub struct RangeCoderState {
    pub range: u32,
    pub code: u32,
}

impl RangeCoderState {
    /// The range is one that a decoded bit can leave behind.
    pub open spec fn wf(self) -> bool {
        67 * self.range >= TOP
    }

    /// The coder over `input`, with `probs` as its model.
    pub open spec fn over(self, input: Seq<u8>, probs: Seq<u16>) -> Coding {
        Coding { range: self.range, code: self.code, input, lack: 0, probs }
    }
}

impl Default for RangeCoderState {
    /// The full range, at code zero.
    fn default() -> (s: Self)
        ensures
            s.range == 0xFFFF_FFFF,
            s.code == 0,
    {
        RangeCoderState { range: 0xFFFF_FFFF, code: 0 }
    }
}

/// Where a range decoder gets its bytes from.
pub trait RangeReader: Sized {
    spec fn wf(&self) -> bool;

    /// The bytes still to come.
    spec fn rest(&self) -> Seq<u8>;

    /// How many bytes were wanted after the last.
    spec fn lack(&self) -> nat;

    /// How the source ends, as far as that matters.
    type End;

    spec fn end(&self) -> Self::End;

    /// How many bytes are still to come at least when a symbol may start.
    spec fn floor(&self) -> nat;

    /// What the reader was opened on, as far as that is known from the start.
    spec fn tape(&self) -> Seq<u8>;

    /// The last byte of the payload may be taken in ahead of time with more
    /// than this many bytes to come: none, or less than zero where it cannot
    /// be told how many are.
    spec fn tail(&self) -> int;

    /// Whether a symbol may start here.
    spec fn may_start(&self) -> bool;

    /// Takes the next byte, or zero behind the last one.
    fn next_byte(&mut self) -> (b: u8)
        requires
            old(self).wf(),
        ensures
            final(self).wf(),
            final(self).floor() == old(self).floor(),
            final(self).tape() == old(self).tape(),
            final(self).tail() == old(self).tail(),
            final(self).end() == old(self).end(),
            old(self).rest().len() > 0 ==> {
                &&& b == old(self).rest()[0]
                &&& final(self).rest() == old(self).rest().drop_first()
                &&& final(self).lack() == old(self).lack()
            },
            old(self).rest().len() == 0 ==> {
                &&& b == 0
                &&& final(self).rest() == old(self).rest()
                &&& final(self).lack() == old(self).lack() + 1
            },
    ;

    fn can_start_symbol(&self) -> (r: bool)
        requires
            self.wf(),
        ensures
            r == self.may_start(),
            r ==> self.rest().len() >= self.floor(),
            r ==> self.lack() == 0,
    ;

    /// Whether the next byte belongs to the payload, and may be taken in to
    /// finish it.
    fn can_normalize(&self) -> (r: bool)
        requires
            self.wf(),
        ensures
            r == (self.rest().len() > self.tail()),
    ;
}

/// Two readers of one source: what does not change while it is read from is
/// the same in both.
pub open spec fn same_source<R: RangeReader>(a: R, b: R) -> bool {
    &&& a.floor() == b.floor()
    &&& a.tape() == b.tape()
    &&& a.tail() == b.tail()
    &&& a.end() == b.end()
}

/// A range decoder.
pub struct RangeDecoder<R> {
    pub inner: R,
    pub range: u32,
    pub code: u32,
}

impl<R: RangeReader> RangeDecoder<R> {
    pub open spec fn wf(&self) -> bool {
        &&& self.inner.wf()
        &&& 67 * self.range >= TOP
    }

    /// The decoder as mathematics, with `probs` as its model.
    pub open spec fn coding(&self, probs: Seq<u16>) -> Coding {
        Coding {
            range: self.range,
            code: self.code,
            input: self.inner.rest(),
            lack: self.inner.lack(),
            probs,
        }
    }

    /// A decoder that goes on from `state`.
    pub fn from_parts(inner: R, state: RangeCoderState) -> (rc: Self)
        requires
            inner.wf(),
            state.wf(),
        ensures
            rc.wf(),
            rc.inner == inner,
            rc.range == state.range,
            rc.code == state.code,
    {
        RangeDecoder { inner, range: state.range, code: state.code }
    }

    /// The registers as they stand.
    pub fn state(&self) -> (s: RangeCoderState)
        ensures
            s.range == self.range,
            s.code == self.code,
    {
        RangeCoderState { range: self.range, code: self.code }
    }

    /// Whether the coder ended on zero, as a well formed stream does.
    pub fn is_stream_finished(&self) -> (r: bool)
        ensures
            r == (self.code == 0),
    {
        self.code == 0
    }

    /// Takes in a byte where the range has become narrow.
    pub fn normalize(&mut self)
        requires
            old(self).wf(),
        ensures
            final(self).wf(),
            final(self).range >= TOP,
            same_source(final(self).inner, old(self).inner),
            forall|probs: Seq<u16>|
                #![trigger final(self).coding(probs)]
                final(self).coding(probs) == normalize(old(self).coding(probs)),
    {
        if self.range < TOP {
            let byte = self.inner.next_byte();
            let range = self.range;
            let code = self.code;
            assert(range < 0x100_0000 ==> range << 8u32 == range * 256) by (bit_vector);
            assert((code << 8u32) | (byte as u32) == (code * 256 + byte) % 0x1_0000_0000)
                by (bit_vector);
            self.range = range << 8;
            self.code = (code << 8) | (byte as u32);
            proof {
                assert forall|probs: Seq<u16>|
                    #![trigger self.coding(probs)]
                    self.coding(probs) == normalize(old(self).coding(probs)) by {
                    assert(self.coding(probs) =~= normalize(old(self).coding(probs)));
                }
            }
        }
    }

    /// One bit against probability number `i`.
    pub fn decode_bit(&mut self, probs: &mut Vec<u16>, i: usize) -> (b: u32)
        requires
            old(self).wf(),
            probs_wf(old(probs)@),
            i < old(probs)@.len(),
        ensures
            final(self).wf(),
            probs_wf(final(probs)@),
            final(probs)@.len() == old(probs)@.len(),
            same_source(final(self).inner, old(self).inner),
            b <= 1,
            bit(old(self).coding(old(probs)@), i as int) == (
                final(self).coding(final(probs)@),
                b as int,
            ),
    {
        self.normalize();
        let ghost mid = *self;
        assert(mid.coding(old(probs)@) == normalize(
            old(self).coding(old(probs)@),
        ));
        let prob = probs[i];
        let range = self.range;
        // The same bit, without the reader: the registers do not depend on it.
        let ghost bare = Coding {
            range,
            code: self.code,
            input: Seq::empty(),
            lack: 0,
            probs: old(probs)@,
        };
        proof {
            lemma_bit(bare, i as int);
            assert(normalize(bare) == bare);
            assert(range >> 11u32 == range / 2048) by (bit_vector);
            let q = range as int / 2048;
            assert(q * prob <= q * 2017) by (nonlinear_arith)
                requires
                    q >= 0,
                    prob <= 2017,
            ;
            assert(0 <= q * prob) by (nonlinear_arith)
                requires
                    q >= 0,
            ;
        }
        let split: u32 = (range >> 11) * (prob as u32);
        assert(split == bound(range, prob));
        if self.code < split {
            self.range = split;
            probs[i] = prob + (2048 - prob) / 32;
            assert(probs@ == bit(bare, i as int).0.probs);
            assert(self.coding(probs@) =~= bit(
                old(self).coding(old(probs)@),
                i as int,
            ).0);
            0
        } else {
            self.range = range - split;
            self.code = self.code - split;
            probs[i] = prob - prob / 32;
            assert(probs@ == bit(bare, i as int).0.probs);
            assert(self.coding(probs@) =~= bit(
                old(self).coding(old(probs)@),
                i as int,
            ).0);
            1
        }
    }

    /// `count` bits without a model, behind the bits already in `acc`.
    pub fn decode_direct_bits(&mut self, acc: u32, count: u32) -> (r: u32)
        requires
            old(self).wf(),
            count <= 26,
            acc < 4,
        ensures
            final(self).wf(),
            same_source(final(self).inner, old(self).inner),
            r < 0x1000_0000,
            forall|probs: Seq<u16>|
                #![trigger final(self).coding(probs)]
                direct_bits(old(self).coding(probs), acc as int, count as nat) == (
                    final(self).coding(probs),
                    r as int,
                ),
    {
        let mut result: u32 = acc;
        let mut left: u32 = count;
        let ghost mut weight: int = 4;
        proof {
            lemma2_to64();
            lemma_pow2_adds(count as nat, (26 - count) as nat);
            lemma_pow2_pos((26 - count) as nat);
            let x = pow2(count as nat) as int;
            let y = pow2((26 - count) as nat) as int;
            assert(x <= x * y) by (nonlinear_arith)
                requires
                    x >= 0,
                    y >= 1,
            ;
        }
        while left > 0
            invariant
                self.wf(),
                left <= count <= 26,
                same_source(self.inner, old(self).inner),
                0 <= result < weight,
                weight * pow2(left as nat) <= 0x1000_0000,
                weight >= 4,
                forall|probs: Seq<u16>|
                    #![trigger self.coding(probs)]
                    direct_bits(old(self).coding(probs), acc as int, count as nat)
                        == direct_bits(self.coding(probs), result as int, left as nat),
            decreases left,
        {
            let ghost before = *self;
            let ghost above = result;
            proof {
                let x = pow2((left - 1) as nat) as int;
                lemma_pow2_unfold(left as nat);
                lemma_pow2_pos((left - 1) as nat);
                assert(weight * (2 * x) == (2 * weight) * x) by (nonlinear_arith);
                assert((2 * weight) * x >= 2 * weight) by (nonlinear_arith)
                    requires
                        x >= 1,
                        weight >= 4,
                ;
                weight = 2 * weight;
            }
            self.normalize();
            let ghost mid = *self;
            let range = self.range;
            let code = self.code;
            assert(range >> 1u32 == range / 2) by (bit_vector);
            let half: u32 = range >> 1;
            let diff = code.wrapping_sub(half);
            let one = diff < 0x8000_0000;
            self.range = half;
            if one {
                self.code = diff;
            }
            result = 2 * result + (if one { 1 } else { 0 });
            left = left - 1;
            proof {
                assert forall|probs: Seq<u16>|
                    #![trigger self.coding(probs)]
                    direct_bits(old(self).coding(probs), acc as int, count as nat)
                        == direct_bits(self.coding(probs), result as int, left as nat) by {
                    assert(mid.coding(probs) == normalize(before.coding(probs)));
                    assert(self.coding(probs) =~= direct_bit(before.coding(probs)).0);
                    assert(direct_bits(old(self).coding(probs), acc as int, count as nat)
                        == direct_bits(before.coding(probs), above as int, (left + 1) as nat));
                }
            }
        }
        proof {
            lemma2_to64();
            assert(weight * pow2(0) == weight) by (nonlinear_arith)
                requires
                    pow2(0) == 1,
            ;
        }
        result
    }
}

/// A reader over a slice. A symbol may start only with at least `floor` bytes
/// left. Behind the last byte it hands out zeros, and remembers that it did.
pub struct SliceRangeReader<'a> {
    buf: &'a [u8],
    pos: usize,
    floor: usize,
    overran: bool,
    lack: Ghost<nat>,
}

impl<'a> SliceRangeReader<'a> {
    pub fn new(buf: &'a [u8], floor: usize) -> (r: Self)
        ensures
            r.wf(),
            r.rest() == buf@,
            r.lack() == 0,
            r.floor() == floor,
            r.tape() == buf@,
            r.tail() == 0,
    {
        let r = SliceRangeReader { buf, pos: 0, floor, overran: false, lack: Ghost(0) };
        assert(r.rest() =~= buf@);
        r
    }

    /// How many bytes have been taken.
    pub fn pos(&self) -> (p: usize)
        requires
            self.wf(),
        ensures
            p == self.tape().len() - self.rest().len(),
            self.rest() == self.tape().skip(p as int),
    {
        self.pos
    }

    /// Whether bytes were wanted behind the last.
    pub fn overran(&self) -> (r: bool)
        requires
            self.wf(),
        ensures
            r == (self.lack() > 0),
    {
        self.overran
    }

    /// The length of a slice says what may be done with it.
    pub proof fn lemma_slice(&self)
        requires
            self.wf(),
        ensures
            self.rest().len() <= self.tape().len(),
            self.rest() == self.tape().skip(self.tape().len() - self.rest().len()),
            self.may_start() == (self.rest().len() >= self.floor() && self.lack() == 0),
            self.lack() > 0 ==> self.rest().len() == 0,
    {
    }
}

impl<'a> RangeReader for SliceRangeReader<'a> {
    closed spec fn wf(&self) -> bool {
        &&& self.pos <= self.buf@.len()
        &&& self.lack@ > 0 <==> self.overran
        &&& self.overran ==> self.pos == self.buf@.len()
    }

    closed spec fn rest(&self) -> Seq<u8> {
        self.buf@.skip(self.pos as int)
    }

    closed spec fn lack(&self) -> nat {
        self.lack@
    }

    type End = ();

    open spec fn end(&self) -> () {
        ()
    }

    closed spec fn floor(&self) -> nat {
        self.floor as nat
    }

    closed spec fn tape(&self) -> Seq<u8> {
        self.buf@
    }

    closed spec fn tail(&self) -> int {
        0
    }

    closed spec fn may_start(&self) -> bool {
        self.buf@.len() - self.pos >= self.floor && !self.overran
    }

    fn next_byte(&mut self) -> (b: u8) {
        if self.pos < self.buf.len() {
            let b = self.buf[self.pos];
            self.pos = self.pos + 1;
            assert(self.rest() =~= old(self).rest().drop_first());
            b
        } else {
            self.overran = true;
            proof {
                self.lack@ = self.lack@ + 1;
            }
            0
        }
    }

    fn can_start_symbol(&self) -> (r: bool) {
        self.buf.len() - self.pos >= self.floor && !self.overran
    }

    fn can_normalize(&self) -> (r: bool) {
        self.pos < self.buf.len()
    }
}

} // verus!
