//! The part of a decoder that outlives a call: what has been taken in but is
//! too short to start a symbol from, and the range coder's registers.

use vstd::prelude::*;

use crate::coding::normalize;
use crate::decoder::{decoded, LzmaDecoder, Model};
use crate::error::Error;
use crate::locality::lemma_step;
use crate::lz::{LzDecoder, Window};
use crate::progress::{
    arrives, cautious, enough, fault, fault_before, faulty, lemma_arrives_chain,
    lemma_arrives_exact, lemma_arrives_feed, lemma_arrives_here, lemma_cautious_chain,
    lemma_cautious_feed, lemma_cautious_here, lemma_ended_not_starved, lemma_fault_before,
    lemma_fault_before_chain, lemma_fault_before_feed, lemma_fault_chain, lemma_fault_last,
    lemma_fault_not_starved, lemma_marked_chain, lemma_marked_exact, lemma_marked_feed,
    lemma_settled, lemma_settled_feed, lemma_starved_chain, lemma_steps, lemma_steps_less,
    lemma_steps_looser, lemma_tight_chain, lemma_tight_exact, lemma_tight_feed, looser, marked,
    may_begin, reaches, settled, short, starved, steps, tight, widest,
};
use crate::range::{RangeCoderState, RangeDecoder, RangeReader, SliceRangeReader};
use crate::symbol::{step, Machine, Outcome, Props};

verus! {

/// With this many bytes at hand one symbol is sure to be decodable.
pub const IN_REQUIRED: usize = 20;

/// How many bytes can be carried over: too few to start a symbol from, and
/// enough fresh ones behind them to use them up.
pub const CARRY_CAP: usize = 40;

/// The bytes the range coder starts from: a zero, and the code.
pub const RC_INIT_SIZE: usize = 5;

/// Sizes up to this one are known sizes.
pub const SIZE_MAX: u64 = 0x7FFF_FFFF_FFFF_FFFF;

/// The size of the data is known.
pub open spec fn known(size: u64) -> bool {
    size <= SIZE_MAX
}

/// How many bytes there will be, where that is known, with `len` of them
/// there.
pub open spec fn goal(len: nat, remaining_size: u64) -> Option<nat> {
    if known(remaining_size) {
        Some(len + remaining_size as nat)
    } else {
        None
    }
}

/// How many bytes may be decoded before some have to be handed out.
pub open spec fn room(space: nat, remaining_size: u64) -> nat {
    if known(remaining_size) && remaining_size < space {
        remaining_size as nat
    } else {
        space
    }
}

/// What a decode pass is allowed to do, and what it has already done.
pub struct Limits {
    /// How many bytes are still to be decoded. `u64::MAX` means unknown.
    pub remaining_size: u64,
    /// How many bytes may still be taken in, where that is bounded.
    pub compressed_left: Option<u64>,
    /// Whether the payload may end with an end marker.
    pub allow_end_marker: bool,
    /// Set once the end of the payload has been seen.
    pub end_reached: bool,
}

/// Whether anything follows the input of a decode pass, and if not, what said
/// so.
#[derive(Clone, Copy, PartialEq, Eq, Structural)]
pub enum InputEnd {
    /// More input can still follow.
    More,
    /// The caller said that this is the last of the input.
    Caller,
    /// A length field says that the payload ends here.
    Length,
}

/// The second dictionary is the first with some more bytes put in, whatever
/// limit was set.
pub open spec fn advanced(a: Window, b: Window) -> bool {
    &&& b.size == a.size
    &&& b.delivered == a.delivered
    &&& b.allocated == a.allocated
    &&& a.hist.is_prefix_of(b.hist)
    &&& b.hist.len() - a.hist.len() == a.space - b.space
}

/// The machine of a decoder with `rc` for its registers and `input` at hand.
pub open spec fn machine(rc: RangeCoderState, input: Seq<u8>, model: Model, w: Window) -> Machine {
    model.machine(rc.over(input, model.probs), w.ideal())
}

/// What is left to do after bytes were decoded: fewer by as many, where the
/// size is known, with the end reached when none are left.
pub open spec fn left_over(a: Limits, b: Limits, v: Window, w: Window) -> bool {
    let n = w.hist.len() - v.hist.len();
    if known(a.remaining_size) {
        &&& b.remaining_size == a.remaining_size - n
        &&& n > 0 && b.remaining_size == 0 ==> b.end_reached
    } else {
        b.remaining_size == a.remaining_size
    }
}

/// The payload of `m` ends, and a decoder can stand at `n` then: with all the
/// bytes there, or behind an end marker where there may be one, with the coder
/// at zero.
pub open spec fn ended(
    p: Props,
    m: Machine,
    limit: Option<nat>,
    allow_end_marker: bool,
    n: Machine,
) -> bool {
    ||| limit is Some && arrives(p, m, limit, n) && n.hist.len() == limit->0
    ||| allow_end_marker && marked(p, m, limit, n) && n.coding.code == 0
}

/// A decoder that went over the payload of `m` can stand at `n`, at its end or
/// somewhere along it.
pub open spec fn stands(
    p: Props,
    m: Machine,
    limit: Option<nat>,
    allow_end_marker: bool,
    end: bool,
    n: Machine,
) -> bool {
    if end {
        ended(p, m, limit, allow_end_marker, n)
    } else {
        arrives(p, m, limit, n)
    }
}

/// More input behind what a decoder went over changes nothing.
pub proof fn lemma_stands_feed(
    p: Props,
    m: Machine,
    limit: Option<nat>,
    allow_end_marker: bool,
    end: bool,
    n: Machine,
    more: Seq<u8>,
)
    requires
        p.wf(),
        m.wf(p),
        stands(p, m, limit, allow_end_marker, end, n),
    ensures
        stands(p, m.feed(more), limit, allow_end_marker, end, n.feed(more)),
{
    if arrives(p, m, limit, n) {
        lemma_arrives_feed(p, m, limit, n, more);
    }
    if marked(p, m, limit, n) {
        lemma_marked_feed(p, m, limit, n, more);
    }
}

/// A decoder that goes on from where another could stand.
pub proof fn lemma_stands_chain(
    p: Props,
    m: Machine,
    limit: Option<nat>,
    allow_end_marker: bool,
    end: bool,
    a: Machine,
    b: Machine,
)
    requires
        p.wf(),
        m.wf(p),
        arrives(p, m, limit, a),
        stands(p, a, limit, allow_end_marker, end, b),
    ensures
        stands(p, m, limit, allow_end_marker, end, b),
{
    if arrives(p, a, limit, b) {
        lemma_arrives_chain(p, m, limit, a, b);
    }
    if marked(p, a, limit, b) {
        lemma_marked_chain(p, m, limit, a, b);
    }
}

/// A decoder that left `more` alone stands where it would without it.
pub proof fn lemma_stands_exact(
    p: Props,
    m: Machine,
    limit: Option<nat>,
    allow_end_marker: bool,
    end: bool,
    n: Machine,
    more: Seq<u8>,
)
    requires
        p.wf(),
        m.wf(p),
        m.coding.lack == 0,
        stands(p, m.feed(more), limit, allow_end_marker, end, n.feed(more)),
    ensures
        stands(p, m, limit, allow_end_marker, end, n),
{
    if arrives(p, m.feed(more), limit, n.feed(more)) {
        lemma_arrives_exact(p, m, limit, n, more);
    }
    if marked(p, m.feed(more), limit, n.feed(more)) {
        lemma_marked_exact(p, m, limit, n, more);
    }
}

/// Output space the decoder may fill before it has to stop.
fn room_for(lz: &LzDecoder, remaining_size: u64) -> (n: usize)
    requires
        lz.wf(),
    ensures
        n == room(lz@.space, remaining_size),
{
    let space = lz.available_space();
    if remaining_size <= SIZE_MAX && remaining_size < space as u64 {
        remaining_size as usize
    } else {
        space
    }
}

/// Where a run of the decoder that went well has come to: somewhere along the
/// payload, or to where some bytes were lacking.
pub proof fn lemma_went_well(
    p: Props,
    m: Machine,
    near: Option<nat>,
    limit: Option<nat>,
    floor: nat,
    tail: int,
    n: Machine,
    end_marker: bool,
    allow_end_marker: bool,
    last: bool,
)
    requires
        p.wf(),
        m.wf(p),
        m.coding.lack == 0,
        decoded(p, m, false, near, floor, tail, n, end_marker, true),
        looser(near, limit),
    ensures
        m.hist.is_prefix_of(n.hist),
        n.hist == m.hist && !enough(m, near) ==> n == m,
        floor >= 20 && tail >= 0 ==> n.coding.lack == 0,
        n.coding.lack == 0 ==> arrives(p, m, limit, n),
        n.coding.lack == 0 && limit is Some && n.hist.len() > limit->0 ==> fault_before(
            p,
            m,
            limit,
            floor,
            allow_end_marker,
            last,
            Error::EndNotFinished,
        ),
        cautious(p, m, limit, floor, false, n),
        enough(n, near) && tail < 0 ==> settled(n) == n,
        enough(n, near) && tail <= 0 && n.coding.input.len() > 0 ==> settled(n) == n,
        enough(n, near) && n.coding.lack == 0 && tail <= 0 && floor >= 20 && m.coding.input.len() > 0
            ==> tight(p, m, limit, n),
        n.coding.lack > 0 ==> short(p, m, limit),
        n.coding.lack > 0 && tail >= 0 ==> starved(p, m, limit),
{
    reveal(short);
    reveal(decoded);
    reveal(arrives);
    reveal(fault_before);
    reveal(starved);
    reveal(cautious);
    reveal(tight);
    let k = choose|k: Machine| #[trigger]
        reaches(p, m, near, floor, k) && n == (Machine {
            coding: if enough(k, near) && k.coding.input.len() > tail {
                normalize(k.coding)
            } else {
                k.coding
            },
            ..k
        });
    let c = choose|c: nat| #[trigger] steps(p, m, near, floor, c) == Some(k);
    lemma_steps(p, m, near, floor, c);
    lemma_steps_looser(p, m, near, floor, c, limit, 0);
    lemma_steps_looser(p, m, near, floor, c, limit, floor);
    assert(reaches(p, m, limit, 0, k));
    assert(reaches(p, m, limit, floor, k));
    lemma_settled(p, k);
    if c > 0 {
        // The last symbol, which may have taken in all that there was.
        lemma_steps_less(p, m, near, floor, (c - 1) as nat, c);
        let j = steps(p, m, near, floor, (c - 1) as nat)->0;
        lemma_steps(p, m, near, floor, (c - 1) as nat);
        lemma_steps_looser(p, m, near, floor, (c - 1) as nat, limit, 0);
        lemma_step(p, j, Seq::empty());
        assert(reaches(p, m, limit, 0, j));
        assert(may_begin(j, limit, 0));
        assert(k.coding.lack == 0 && k.coding.input.len() == 0 && floor >= 20 ==> widest(p, j));
    }
    if k.coding.lack > 0 {
        let j = steps(p, m, limit, 0, (c - 1) as nat)->0;
        assert(reaches(p, m, limit, 0, j));
    } else {
        assert(n == k || n == settled(k));
        if limit is Some && n.hist.len() > limit->0 {
            assert(faulty(p, k, limit, allow_end_marker, last, Error::EndNotFinished));
        }
    }
}

/// Where a run of the decoder that failed has come to.
pub proof fn lemma_failed(
    p: Props,
    m: Machine,
    near: Option<nat>,
    limit: Option<nat>,
    floor: nat,
    tail: int,
    n: Machine,
    end_marker: bool,
    last: bool,
)
    requires
        p.wf(),
        m.wf(p),
        m.coding.lack == 0,
        decoded(p, m, false, near, floor, tail, n, end_marker, false),
        looser(near, limit),
    ensures
        floor >= 20 ==> n.coding.lack == 0,
        n.coding.lack > 0 ==> starved(p, m, limit) && short(p, m, limit),
        n.coding.lack == 0 && end_marker && settled(n).coding.lack > 0 ==> short(p, m, limit),
        n.wf(p),
        !enough(n, near),
        n.coding.lack == 0 ==> {
            &&& !end_marker ==> fault_before(p, m, limit, floor, true, last, Error::DistOverflow)
            &&& fault_before(p, m, limit, floor, false, last, Error::DistOverflow)
            &&& end_marker ==> {
                &&& marked(p, m, limit, n)
                &&& cautious(p, m, limit, floor, true, n)
                &&& cautious(p, m, limit, floor, true, settled(n))
                &&& tight(p, m, limit, settled(n))
                &&& floor >= 20 && n.coding.input.len() == 0 ==> tight(p, m, limit, n)
                &&& settled(n).coding.lack == 0 ==> marked(p, m, limit, settled(n))
                &&& n.coding.code != 0 && n.coding.input.len() == 0 && (last || floor >= 20)
                    ==> fault_before(
                    p,
                    m,
                    limit,
                    floor,
                    true,
                    last,
                    Error::NotTerminated,
                )
                &&& settled(n).coding.lack == 0 && settled(n).coding.code != 0 ==> fault_before(
                    p,
                    m,
                    limit,
                    floor,
                    true,
                    last,
                    Error::NotTerminated,
                )
            }
        },
{
    reveal(decoded);
    reveal(marked);
    reveal(fault_before);
    reveal(cautious);
    reveal(tight);
    reveal(starved);
    reveal(short);
    let outcome = if end_marker {
        Outcome::EndMarker
    } else {
        Outcome::Overflow
    };
    let k = choose|k: Machine| #[trigger]
        reaches(p, m, near, floor, k) && may_begin(k, near, floor) && step(p, k) == (n, outcome);
    let c = choose|c: nat| #[trigger] steps(p, m, near, floor, c) == Some(k);
    lemma_steps(p, m, near, floor, c);
    lemma_steps_looser(p, m, near, floor, c, limit, 0);
    lemma_steps_looser(p, m, near, floor, c, limit, floor);
    lemma_step(p, k, Seq::empty());
    lemma_settled(p, n);
    assert(reaches(p, m, limit, 0, k));
    assert(reaches(p, m, limit, floor, k));
    assert(may_begin(k, limit, 0));
    assert(may_begin(k, limit, floor));
    assert(n.coding.lack == 0 && n.coding.input.len() == 0 && floor >= 20 ==> widest(p, k));
    if n.coding.lack == 0 {
        if !end_marker {
            assert(faulty(p, k, limit, true, last, Error::DistOverflow));
        }
        assert(faulty(p, k, limit, false, last, Error::DistOverflow));
        if end_marker && n.coding.code != 0 && n.coding.input.len() == 0 && (last || floor >= 20) {
            assert(faulty(p, k, limit, true, last, Error::NotTerminated));
        }
        if end_marker && settled(n).coding.lack == 0 && settled(n).coding.code != 0 {
            assert(faulty(p, k, limit, true, last, Error::NotTerminated));
        }
    }
}

/// How a decode pass over `buf` went: how many bytes of it were taken, whether
/// some were lacking, and the number of bytes decoded or why that failed.
pub struct Ran {
    pub pos: usize,
    pub overran: bool,
    pub result: Result<usize, Error>,
}

/// Decodes as much as fits from `buf`. A symbol is begun only with at least
/// `floor` bytes left.
fn run(
    rc: &mut RangeCoderState,
    lz: &mut LzDecoder,
    lzma: &mut LzmaDecoder,
    limits: &mut Limits,
    buf: &[u8],
    floor: usize,
) -> (r: Ran)
    requires
        old(rc).wf(),
        old(lz).wf(),
        old(lz)@.allocated,
        old(lzma).wf(),
    ensures
        final(rc).wf(),
        final(lz).wf(),
        final(lzma).wf(),
        final(lzma)@.props(0) == old(lzma)@.props(0),
        final(limits).compressed_left == old(limits).compressed_left,
        final(limits).allow_end_marker == old(limits).allow_end_marker,
        advanced(old(lz)@, final(lz)@),
        r.pos <= buf@.len(),
        floor >= 20 ==> !r.overran,
        room(old(lz)@.space, old(limits).remaining_size) == 0 ==> {
            &&& r.pos == 0
            &&& !r.overran
            &&& r.result == Ok::<usize, Error>(0)
            &&& *final(rc) == *old(rc)
            &&& final(lz)@ == old(lz)@
            &&& final(lzma)@ == old(lzma)@
            &&& *final(limits) == *old(limits)
        },
        r.result matches Ok(n) ==> n == final(lz)@.hist.len() - old(lz)@.hist.len(),
        r.result matches Err(e) && e != Error::EndNotFinished ==> *final(limits) == *old(limits),
        old(limits).end_reached ==> final(limits).end_reached,
        // Behind the end of the payload only the copy under way is finished.
        old(lzma)@.end_marker && room(old(lz)@.space, old(limits).remaining_size) > 0 ==> {
            let m = machine(*old(rc), buf@, old(lzma)@, old(lz)@);
            let n = machine(*final(rc), buf@.skip(r.pos as int), final(lzma)@, final(lz)@);
            let some = room(old(lz)@.space, old(limits).remaining_size);
            let z = if buf@.len() > 0 {
                settled(m)
            } else {
                m
            };
            &&& !r.overran
            &&& final(lzma)@.end_marker
            &&& n == (if old(limits).allow_end_marker {
                z
            } else {
                m
            })
            &&& r.result == (if !old(limits).allow_end_marker {
                Err::<usize, Error>(Error::DistOverflow)
            } else if z.coding.code != 0 {
                Err(Error::NotTerminated)
            } else if old(lz)@.pending > some {
                Err(Error::EndNotFinished)
            } else {
                Ok(old(lz)@.pending as usize)
            })
            &&& r.result is Ok ==> {
                &&& final(limits).end_reached
                &&& final(lz)@.pending == 0
                &&& left_over(*old(limits), *final(limits), old(lz)@, final(lz)@)
            }
        },
        !old(lzma)@.end_marker ==> ({
            let p = old(lzma)@.props(old(lz)@.size);
            let m = machine(*old(rc), buf@, old(lzma)@, old(lz)@);
            let limit = goal(old(lz)@.hist.len(), old(limits).remaining_size);
            let n = machine(*final(rc), buf@.skip(r.pos as int), final(lzma)@, final(lz)@);
            let some = room(old(lz)@.space, old(limits).remaining_size) > 0;
            if r.overran {
                starved(p, m, limit)
            } else {
                match r.result {
                    Ok(_) => {
                        &&& left_over(*old(limits), *final(limits), old(lz)@, final(lz)@)
                        &&& cautious(p, m, limit, floor as nat, final(lzma)@.end_marker, n)
                        &&& final(lzma)@.end_marker ==> {
                            &&& final(limits).end_reached
                            &&& old(limits).allow_end_marker
                            &&& marked(p, m, limit, n)
                            &&& n.coding.code == 0
                        }
                        &&& final(limits).end_reached && some ==> final(lz)@.pending == 0
                        &&& final(limits).end_reached && !old(limits).end_reached ==> {
                            ||| final(lzma)@.end_marker
                            ||| final(limits).remaining_size == 0
                        }
                        &&& final(limits).end_reached && !old(limits).end_reached ==> {
                            &&& some
                            &&& ended(p, m, limit, old(limits).allow_end_marker, n)
                            &&& settled(n) == n || r.pos == buf@.len()
                            &&& floor >= IN_REQUIRED && buf@.len() > 0 ==> tight(p, m, limit, n)
                        }
                        &&& !final(lzma)@.end_marker ==> arrives(p, m, limit, n)
                        &&& !final(limits).end_reached ==> {
                            &&& final(lz)@.space == 0 || n.coding.input.len() < floor || !some
                            &&& some && (buf@.len() >= floor || old(lz)@.pending > 0)
                                ==> final(lz)@.hist.len() > old(lz)@.hist.len()
                            &&& final(lz)@.hist.len() == old(lz)@.hist.len() ==> r.pos == 0
                        }
                    },
                    Err(e) => {
                        ||| fault_before(
                            p,
                            m,
                            limit,
                            floor as nat,
                            old(limits).allow_end_marker,
                            floor < IN_REQUIRED,
                            e,
                        )
                        ||| old(limits).end_reached && e == Error::EndNotFinished
                    },
                }
            }
        }),
{
    let room = room_for(lz, limits.remaining_size);
    if room == 0 {
        proof {
            let p = lzma@.props(lz@.size);
            let m = machine(*rc, buf@, lzma@, lz@);
            let limit = goal(lz@.hist.len(), limits.remaining_size);
            assert(buf@.skip(0) =~= buf@);
            lemma_arrives_here(p, m, limit);
            lemma_cautious_here(p, m, limit, floor as nat);
        }
        return Ran { pos: 0, overran: false, result: Ok(0) };
    }
    let ghost p = lzma@.props(lz@.size);
    let ghost m = machine(*rc, buf@, lzma@, lz@);
    let ghost limit = goal(lz@.hist.len(), limits.remaining_size);
    let ghost near = Some((lz@.hist.len() + room) as nat);
    let ghost w = lz@;
    proof {
        lz.lemma_wf();
        assert(m.wf(p));
    }
    let before = lz.get_pos();
    lz.set_limit(room);
    let mut coder = RangeDecoder::from_parts(SliceRangeReader::new(buf, floor), *rc);
    assert(coder.coding(lzma@.probs) =~= m.coding);
    let decoded = lzma.decode(lz, &mut coder);
    let produced = lz.get_pos() - before;
    let ghost n = lzma@.machine(coder.coding(lzma@.probs), lz@.ideal());
    proof {
        coder.inner.lemma_slice();
        lz.lemma_wf();
        if old(lzma)@.end_marker {
            reveal(crate::decoder::decoded);
            lemma_settled(p, m);
        } else if decoded is Ok {
            lemma_went_well(
                p,
                m,
                near,
                limit,
                floor as nat,
                0,
                n,
                lzma@.end_marker,
                limits.allow_end_marker,
                floor < IN_REQUIRED,
            );
        } else {
            lemma_failed(
                p,
                m,
                near,
                limit,
                floor as nat,
                0,
                n,
                lzma@.end_marker,
                floor < IN_REQUIRED,
            );
        }
    }
    let mut error: Option<Error> = None;
    if let Err(e) = decoded {
        // An end marker comes out of the decoder as an error. Anything else is
        // genuine corruption.
        if !limits.allow_end_marker || !lzma.end_marker_detected() {
            error = Some(e);
        } else {
            if coder.inner.can_normalize() {
                coder.normalize();
                proof {
                    coder.inner.lemma_slice();
                }
                assert(coder.coding(lzma@.probs) == settled(n).coding);
            }
            // Only once the payload is known to end cleanly, or a caller that
            // goes on after the error is told that it did.
            if coder.is_stream_finished() {
                limits.end_reached = true;
            } else {
                error = Some(Error::NotTerminated);
            }
        }
    }
    let pos = coder.inner.pos();
    let overran = coder.inner.overran();
    *rc = coder.state();
    let ghost end = lzma@.machine(coder.coding(lzma@.probs), lz@.ideal());
    proof {
        assert(coder.inner.lack() == end.coding.lack);
        assert(end == n || end == settled(n) && n.coding.input.len() > 0);
        assert(end.coding.lack == n.coding.lack);
        assert(!overran ==> machine(*rc, buf@.skip(pos as int), lzma@, lz@).coding =~= end.coding);
    }
    if let Some(e) = error {
        return Ran { pos, overran, result: Err(e) };
    }
    if limits.remaining_size <= SIZE_MAX {
        limits.remaining_size = limits.remaining_size - produced as u64;
        if limits.remaining_size == 0 {
            limits.end_reached = true;
        }
    }
    if limits.end_reached && lz.has_pending() {
        return Ran { pos, overran, result: Err(Error::EndNotFinished) };
    }
    Ran { pos, overran, result: Ok(produced) }
}

/// The code in the four bytes behind the first, the most significant first.
pub open spec fn first_code(bytes: Seq<u8>) -> u32 {
    (bytes[1] * 0x100_0000 + bytes[2] * 0x1_0000 + bytes[3] * 0x100 + bytes[4]) as u32
}

/// What may be taken in is how the input begins: all of it, or as much as the budget
/// has.
pub proof fn lemma_within_budget(input: Seq<u8>, compressed_left: Option<u64>)
    ensures
        ({
            let given = within_budget(input, compressed_left);
            &&& given.is_prefix_of(input)
            &&& compressed_left is None ==> given == input
            &&& compressed_left matches Some(left) ==> {
                &&& given.len() <= left
                &&& given.len() == left || given.len() == input.len()
            }
        }),
{
}

/// How many bytes may be decoded is the lesser of what there is room for and of what
/// is still to come. A size is known if it is less than half of all.
pub proof fn lemma_room(space: nat, remaining_size: u64)
    ensures
        room(space, remaining_size) <= space,
        remaining_size < 0x8000_0000_0000_0000 ==> {
            &&& room(space, remaining_size) <= remaining_size
            &&& room(space, remaining_size) == space || room(space, remaining_size)
                == remaining_size
        },
        remaining_size >= 0x8000_0000_0000_0000 ==> room(space, remaining_size) == space,
{
}

/// What is there and what is still to come are as much as before.
pub proof fn lemma_left_over(a: Limits, b: Limits, v: Window, w: Window)
    requires
        left_over(a, b, v, w),
        v.hist.len() <= w.hist.len(),
    ensures
        a.remaining_size < 0x8000_0000_0000_0000 ==> v.hist.len() + a.remaining_size
            == w.hist.len() + b.remaining_size,
        a.remaining_size < 0x8000_0000_0000_0000 && w.hist.len() > v.hist.len() && b.remaining_size
            == 0 ==> b.end_reached,
        a.remaining_size >= 0x8000_0000_0000_0000 ==> b.remaining_size == a.remaining_size,
{
}

/// As much of the input as may be taken in.
pub open spec fn within_budget(input: Seq<u8>, compressed_left: Option<u64>) -> Seq<u8> {
    match compressed_left {
        Some(left) => if left < input.len() {
            input.take(left as int)
        } else {
            input
        },
        None => input,
    }
}

/// What a pass makes of a payload that was over when it began: `all` is what it
/// went on from, with all of the input at hand, and `n` is where it came to, with
/// the input that it left alone.
///
/// Behind an end marker nothing is decoded any more, and the byte that brings the
/// coder back above its least range is all that may be taken in. Where only the
/// limits say that the payload is over, what was carried over is decoded further.
#[verifier::opaque]
pub open spec fn went_over(
    p: Props,
    all: Machine,
    limit: Option<nat>,
    limits0: Limits,
    marker0: bool,
    w0: Window,
    limits1: Limits,
    marker1: bool,
    w1: Window,
    n: Machine,
) -> bool {
    &&& limits0.end_reached ==> limits1.end_reached
    &&& if marker0 {
        &&& marker1
        &&& n == all || n == settled(all)
        &&& limits1.end_reached && !limits0.end_reached ==> {
            &&& limits0.allow_end_marker
            &&& n.coding.code == 0
            &&& w1.pending == 0
        }
        &&& !limits1.end_reached ==> {
            &&& w1 == w0
            &&& limits1.remaining_size == limits0.remaining_size
        }
    } else {
        &&& cautious(p, all, limit, IN_REQUIRED as nat, marker1, n)
        &&& marker1 ==> {
            &&& limits0.allow_end_marker
            &&& marked(p, all, limit, n)
            &&& n.coding.code == 0
        }
        &&& !marker1 ==> arrives(p, all, limit, n)
    }
}

/// What such a pass fails with: the end marker again, where there may be none or
/// the coder is not at zero behind it, a copy that does not fit, or what is wrong
/// with what was carried over.
#[verifier::opaque]
pub open spec fn failed_over(
    p: Props,
    all: Machine,
    limit: Option<nat>,
    limits: Limits,
    marker: bool,
    w: Window,
    e: Error,
) -> bool {
    if marker {
        match e {
            Error::DistOverflow => !limits.allow_end_marker,
            Error::NotTerminated => limits.allow_end_marker && (all.coding.code != 0 || settled(
                all,
            ).coding.code != 0),
            Error::EndNotFinished => limits.allow_end_marker && w.pending > room(
                w.space,
                limits.remaining_size,
            ),
            _ => false,
        }
    } else {
        ||| fault_before(p, all, limit, IN_REQUIRED as nat, limits.allow_end_marker, false, e)
        ||| limits.end_reached && e == Error::EndNotFinished
    }
}

/// The same limits, but for what may still be taken in.
spec fn same_limits(a: Limits, b: Limits) -> bool {
    &&& a.remaining_size == b.remaining_size
    &&& a.allow_end_marker == b.allow_end_marker
    &&& a.end_reached == b.end_reached
}

/// A pass over a payload that is over may leave everything as it is.
proof fn lemma_over_here(
    p: Props,
    all: Machine,
    limit: Option<nat>,
    limits0: Limits,
    marker: bool,
    w: Window,
    limits1: Limits,
)
    requires
        all.coding.lack == 0,
        same_limits(limits0, limits1),
    ensures
        marker || limits0.end_reached ==> went_over(
            p,
            all,
            limit,
            limits0,
            marker,
            w,
            limits1,
            marker,
            w,
            all,
        ),
{
    reveal(went_over);
    lemma_arrives_here(p, all, limit);
    lemma_cautious_here(p, all, limit, IN_REQUIRED as nat);
}

/// How much may still be taken in does not matter to such a pass.
proof fn lemma_over_same(
    p: Props,
    all: Machine,
    limit: Option<nat>,
    limits0: Limits,
    marker0: bool,
    w0: Window,
    limits1: Limits,
    marker1: bool,
    w1: Window,
    n: Machine,
    limits2: Limits,
)
    requires
        went_over(p, all, limit, limits0, marker0, w0, limits1, marker1, w1, n),
        same_limits(limits1, limits2),
    ensures
        went_over(p, all, limit, limits0, marker0, w0, limits2, marker1, w1, n),
{
    reveal(went_over);
}

/// Two stretches of such a pass, where the first did not come to the end.
proof fn lemma_over_chain(
    p: Props,
    all: Machine,
    limit: Option<nat>,
    limits0: Limits,
    marker0: bool,
    w0: Window,
    limits1: Limits,
    marker1: bool,
    w1: Window,
    a: Machine,
    before: Limits,
)
    requires
        all.coding.wf(),
        went_over(p, all, limit, limits0, marker0, w0, limits1, marker1, w1, a),
        marker0 || limits0.end_reached,
        !limits1.end_reached,
        limits1.allow_end_marker == limits0.allow_end_marker,
        same_limits(limits1, before),
    ensures
        marker0,
        marker1,
        forall|limits2: Limits, marker2: bool, w2: Window, b: Machine|
            #![trigger went_over(p, a, limit, before, marker1, w1, limits2, marker2, w2, b)]
            went_over(p, a, limit, before, marker1, w1, limits2, marker2, w2, b) ==> went_over(
                p,
                all,
                limit,
                limits0,
                marker0,
                w0,
                limits2,
                marker2,
                w2,
                b,
            ),
        forall|e: Error|
            #![trigger failed_over(p, a, limit, before, marker1, w1, e)]
            failed_over(p, a, limit, before, marker1, w1, e) ==> failed_over(
                p,
                all,
                limit,
                limits0,
                marker0,
                w0,
                e,
            ),
{
    reveal(went_over);
    reveal(failed_over);
    lemma_settled(p, all);
}

/// The bytes of `s` from `from` on.
pub fn tail_of(s: &[u8], from: usize) -> (v: Vec<u8>)
    requires
        from <= s@.len(),
    ensures
        v@ == s@.skip(from as int),
{
    let mut v: Vec<u8> = Vec::new();
    v.extend_from_slice(&s[from..s.len()]);
    assert(v@ =~= s@.skip(from as int));
    v
}

/// A core as mathematics.
pub struct CoreView {
    pub rc: RangeCoderState,
    /// The bytes taken in that no symbol was decoded from yet.
    pub carry: Seq<u8>,
}

/// The part of a decode that has to survive between two calls, but for the
/// dictionary and the model.
///
/// Decoding straight out of the caller's slice means stopping before a symbol
/// could run off the end of it, so whatever is left over is carried into the
/// next call and stitched to the bytes that arrive then.
pub struct LzmaCore {
    rc: RangeCoderState,
    carry: Vec<u8>,
}

impl View for LzmaCore {
    type V = CoreView;

    closed spec fn view(&self) -> CoreView {
        CoreView { rc: self.rc, carry: self.carry@ }
    }
}

impl LzmaCore {
    pub open spec fn wf(&self) -> bool {
        &&& self@.rc.wf()
        &&& self@.carry.len() <= CARRY_CAP
    }

    /// The machine of a decoder with this core.
    pub open spec fn machine(&self, model: Model, w: Window) -> Machine {
        machine(self@.rc, self@.carry, model, w)
    }

    pub fn new() -> (c: Self)
        ensures
            c.wf(),
            c@.rc.range == 0xFFFF_FFFF,
            c@.rc.code == 0,
            c@.carry == Seq::<u8>::empty(),
    {
        LzmaCore { rc: RangeCoderState { range: 0xFFFF_FFFF, code: 0 }, carry: Vec::new() }
    }

    /// Forgets the current payload, for a new one over the same dictionary.
    pub fn reset(&mut self)
        ensures
            final(self).wf(),
            final(self)@.rc.range == 0xFFFF_FFFF,
            final(self)@.rc.code == 0,
            final(self)@.carry == Seq::<u8>::empty(),
    {
        *self = LzmaCore::new();
    }

    /// Starts the range coder: the first byte must be zero, the next four are
    /// the code, the most significant first.
    pub fn init_rc(&mut self, bytes: &[u8; 5]) -> (r: Result<(), Error>)
        ensures
            r == (if bytes@[0] == 0 {
                Ok::<(), Error>(())
            } else {
                Err(Error::FirstByteNotZero)
            }),
            r is Err ==> final(self)@ == old(self)@,
            r is Ok ==> final(self)@.carry == old(self)@.carry && final(self)@.rc
                == (RangeCoderState { range: 0xFFFF_FFFF, code: first_code(bytes@) }),
    {
        if bytes[0] != 0 {
            return Err(Error::FirstByteNotZero);
        }
        let code: u32 = bytes[1] as u32 * 0x100_0000 + bytes[2] as u32 * 0x1_0000 + bytes[3] as u32
            * 0x100 + bytes[4] as u32;
        self.rc = RangeCoderState { range: 0xFFFF_FFFF, code };
        Ok(())
    }

    /// Whether the range coder is at zero, as it is at the end of a well formed
    /// payload.
    pub fn rc_finished(&self) -> (r: bool)
        ensures
            r == (self@.rc.code == 0),
    {
        self.rc.code == 0
    }

    /// Bytes that were taken in but never decoded. Never more than `CARRY_CAP`.
    pub fn unused_input(&self) -> (s: &[u8])
        requires
            self.wf(),
        ensures
            s@ == self@.carry,
            s@.len() <= CARRY_CAP,
    {
        self.carry.as_slice()
    }

    /// Decodes across the boundary between what was carried over and the fresh
    /// bytes. Says how many of those it took, how many bytes it decoded, and
    /// whether the carry could not be used up.
    #[verifier::rlimit(50)]
    fn feed_carry(
        &mut self,
        lz: &mut LzDecoder,
        lzma: &mut LzmaDecoder,
        given: &[u8],
        limits: &mut Limits,
    ) -> (r: Result<(usize, usize, bool), Error>)
        requires
            old(self).wf(),
            old(lz).wf(),
            old(lz)@.allocated,
            old(lzma).wf(),
            old(self)@.carry.len() > 0,
        ensures
            final(self).wf(),
            final(lz).wf(),
            final(lzma).wf(),
            final(lzma)@.props(0) == old(lzma)@.props(0),
            final(limits).allow_end_marker == old(limits).allow_end_marker,
            final(limits).compressed_left == old(limits).compressed_left,
            advanced(old(lz)@, final(lz)@),
            ({
                let p = old(lzma)@.props(old(lz)@.size);
                let m = old(self).machine(old(lzma)@, old(lz)@);
                let n = final(self).machine(final(lzma)@, final(lz)@);
                let limit = goal(old(lz)@.hist.len(), old(limits).remaining_size);
                let allow = old(limits).allow_end_marker;
                let end = final(limits).end_reached;
                let fresh = !old(lzma)@.end_marker && !old(limits).end_reached;
                &&& fresh ==> match r {
                    Ok((pos, produced, blocked)) => {
                        &&& pos <= given@.len()
                        &&& produced == final(lz)@.hist.len() - old(lz)@.hist.len()
                        &&& left_over(*old(limits), *final(limits), old(lz)@, final(lz)@)
                        &&& !blocked ==> final(self)@.carry.len() == 0
                        &&& stands(p, m.feed(given@), limit, allow, end, n.feed(given@.skip(pos as int)))
                        &&& cautious(
                            p,
                            m.feed(given@),
                            limit,
                            IN_REQUIRED as nat,
                            final(lzma)@.end_marker,
                            n.feed(given@.skip(pos as int)),
                        )
                        &&& end ==> {
                            &&& final(lz)@.pending == 0
                            &&& tight(p, m.feed(given@), limit, n.feed(given@.skip(pos as int)))
                            &&& final(lzma)@.end_marker || final(limits).remaining_size == 0
                        }
                        &&& !end ==> {
                            &&& !final(lzma)@.end_marker
                            &&& {
                                ||| final(lz)@.space == 0
                                ||| room(old(lz)@.space, old(limits).remaining_size) == 0
                                ||| !blocked
                                ||| final(self)@.carry.len() < IN_REQUIRED && (pos == given@.len()
                                    || old(self)@.carry.len() > IN_REQUIRED && produced > 0)
                            }
                        }
                        &&& !end && produced == 0 && room(
                            old(lz)@.space,
                            old(limits).remaining_size,
                        ) > 0 ==> {
                            &&& blocked
                            &&& pos > 0 || given@.len() == 0
                            &&& final(self)@.carry.len() < IN_REQUIRED
                        }
                    },
                    Err(e) => {
                        &&& fault_before(p, m.feed(given@), limit, IN_REQUIRED as nat, allow, false, e)
                        &&& e != Error::EndNotFinished ==> *final(limits) == *old(limits)
                    },
                }
                &&& !fresh ==> match r {
                    Ok((pos, produced, blocked)) => {
                        &&& pos <= given@.len()
                        &&& produced == final(lz)@.hist.len() - old(lz)@.hist.len()
                        &&& left_over(*old(limits), *final(limits), old(lz)@, final(lz)@)
                        &&& !blocked ==> final(self)@.carry.len() == 0
                        &&& went_over(
                            p,
                            m.feed(given@),
                            limit,
                            *old(limits),
                            old(lzma)@.end_marker,
                            old(lz)@,
                            *final(limits),
                            final(lzma)@.end_marker,
                            final(lz)@,
                            n.feed(given@.skip(pos as int)),
                        )
                    },
                    Err(e) => failed_over(
                        p,
                        m.feed(given@),
                        limit,
                        *old(limits),
                        old(lzma)@.end_marker,
                        old(lz)@,
                        e,
                    ),
                }
            }),
    {
        let ghost p = lzma@.props(lz@.size);
        let ghost m = self.machine(lzma@, lz@);
        let ghost limit = goal(lz@.hist.len(), limits.remaining_size);
        let ghost allow = limits.allow_end_marker;
        proof {
            reveal(went_over);
            reveal(failed_over);
            lz.lemma_wf();
            assert(m.wf(p));
        }
        let carried = self.carry.len();
        let len = given.len();
        let fresh = if len < CARRY_CAP - carried { len } else { CARRY_CAP - carried };
        let mut scratch = tail_of(self.carry.as_slice(), 0);
        scratch.extend_from_slice(&given[0..fresh]);
        let ghost m1 = m.feed(given@.take(fresh as int));
        let ghost rest = given@.skip(fresh as int);
        proof {
            assert(scratch@ =~= self.carry@ + given@.take(fresh as int));
            assert(machine(self.rc, scratch@, lzma@, lz@) =~= m1);
            assert(m1.feed(rest).coding.input =~= m.feed(given@).coding.input);
            assert(m1.feed(rest) =~= m.feed(given@));
            assert(scratch@.skip(0) =~= scratch@);
            lemma_settled_feed(m1, rest);
        }
        let ran = run(&mut self.rc, lz, lzma, limits, scratch.as_slice(), IN_REQUIRED);
        let produced = match ran.result {
            Ok(n) => n,
            Err(e) => {
                proof {
                    if fault_before(p, m1, limit, IN_REQUIRED as nat, allow, false, e) {
                        lemma_fault_before_feed(
                            p,
                            m1,
                            limit,
                            IN_REQUIRED as nat,
                            allow,
                            e,
                            rest,
                        );
                    }
                }
                return Err(e);
            },
        };
        let ghost n1 = machine(self.rc, scratch@.skip(ran.pos as int), lzma@, lz@);
        proof {
            if old(lzma)@.end_marker {
                lemma_settled(p, m1);
            } else {
                lemma_cautious_feed(
                    p,
                    m1,
                    limit,
                    IN_REQUIRED as nat,
                    lzma@.end_marker,
                    n1,
                    rest,
                );
                if marked(p, m1, limit, n1) {
                    lemma_marked_feed(p, m1, limit, n1, rest);
                }
                if arrives(p, m1, limit, n1) {
                    lemma_arrives_feed(p, m1, limit, n1, rest);
                }
                if !old(limits).end_reached && limits.end_reached {
                    lemma_tight_feed(p, m1, limit, n1, rest);
                }
            }
        }
        let blocked = ran.pos < carried;
        let pos = if blocked {
            self.carry = tail_of(scratch.as_slice(), ran.pos);
            fresh
        } else {
            // What is left in the scratch can be picked up in place.
            self.carry = Vec::new();
            ran.pos - carried
        };
        proof {
            let n = self.machine(lzma@, lz@);
            assert(n1.feed(rest).coding.input =~= n.feed(given@.skip(pos as int)).coding.input);
            assert(n1.feed(rest) =~= n.feed(given@.skip(pos as int)));
        }
        Ok((pos, produced, blocked))
    }

    /// Decodes in place, with nothing carried over, and takes what is too short
    /// to start a symbol from into the carry.
    fn feed_direct(
        &mut self,
        lz: &mut LzDecoder,
        lzma: &mut LzmaDecoder,
        given: &[u8],
        limits: &mut Limits,
    ) -> (r: Result<(usize, usize), Error>)
        requires
            old(self).wf(),
            old(lz).wf(),
            old(lz)@.allocated,
            old(lzma).wf(),
            !old(limits).end_reached,
            old(self)@.carry.len() == 0,
        ensures
            final(self).wf(),
            final(lz).wf(),
            final(lzma).wf(),
            final(lzma)@.props(0) == old(lzma)@.props(0),
            final(limits).allow_end_marker == old(limits).allow_end_marker,
            final(limits).compressed_left == old(limits).compressed_left,
            advanced(old(lz)@, final(lz)@),
            ({
                let p = old(lzma)@.props(old(lz)@.size);
                let m = old(self).machine(old(lzma)@, old(lz)@);
                let n = final(self).machine(final(lzma)@, final(lz)@);
                let limit = goal(old(lz)@.hist.len(), old(limits).remaining_size);
                let allow = old(limits).allow_end_marker;
                let end = final(limits).end_reached;
                let fresh = !old(lzma)@.end_marker && !old(limits).end_reached;
                &&& fresh ==> match r {
                    Ok((pos, produced)) => {
                        &&& pos <= given@.len()
                        &&& produced == final(lz)@.hist.len() - old(lz)@.hist.len()
                        &&& left_over(*old(limits), *final(limits), old(lz)@, final(lz)@)
                        &&& stands(p, m.feed(given@), limit, allow, end, n.feed(given@.skip(pos as int)))
                        &&& cautious(
                            p,
                            m.feed(given@),
                            limit,
                            IN_REQUIRED as nat,
                            final(lzma)@.end_marker,
                            n.feed(given@.skip(pos as int)),
                        )
                        &&& end ==> {
                            &&& final(lz)@.pending == 0
                            &&& tight(p, m.feed(given@), limit, n.feed(given@.skip(pos as int)))
                            &&& final(lzma)@.end_marker || final(limits).remaining_size == 0
                        }
                        &&& !end ==> {
                            &&& !final(lzma)@.end_marker
                            &&& {
                                ||| final(lz)@.space == 0
                                ||| room(old(lz)@.space, old(limits).remaining_size) == 0
                                ||| pos == given@.len()
                            }
                        }
                        &&& !end && produced == 0 && pos == 0 && room(
                            old(lz)@.space,
                            old(limits).remaining_size,
                        ) > 0 ==> given@.len() == 0
                        &&& final(self)@.carry.len() < IN_REQUIRED
                    },
                    Err(e) => {
                        &&& fault_before(p, m.feed(given@), limit, IN_REQUIRED as nat, allow, false, e)
                        &&& e != Error::EndNotFinished ==> *final(limits) == *old(limits)
                    },
                }
                &&& !fresh ==> match r {
                    Ok((pos, produced)) => {
                        &&& pos <= given@.len()
                        &&& produced == final(lz)@.hist.len() - old(lz)@.hist.len()
                        &&& left_over(*old(limits), *final(limits), old(lz)@, final(lz)@)
                        &&& went_over(
                            p,
                            m.feed(given@),
                            limit,
                            *old(limits),
                            old(lzma)@.end_marker,
                            old(lz)@,
                            *final(limits),
                            final(lzma)@.end_marker,
                            final(lz)@,
                            n.feed(given@.skip(pos as int)),
                        )
                    },
                    Err(e) => failed_over(
                        p,
                        m.feed(given@),
                        limit,
                        *old(limits),
                        old(lzma)@.end_marker,
                        old(lz)@,
                        e,
                    ),
                }
            }),
    {
        let ghost p = lzma@.props(lz@.size);
        let ghost m = self.machine(lzma@, lz@);
        let ghost limit = goal(lz@.hist.len(), limits.remaining_size);
        let len = given.len();
        let mut pos: usize = 0;
        let mut produced: usize = 0;
        proof {
            reveal(went_over);
            reveal(failed_over);
            lz.lemma_wf();
            assert(given@.skip(0) =~= given@);
            assert(m.feed(given@).coding.input =~= given@);
            assert(machine(self.rc, given@, lzma@, lz@) =~= m.feed(given@));
            lemma_arrives_here(p, m.feed(given@), limit);
            lemma_cautious_here(p, m.feed(given@), limit, IN_REQUIRED as nat);
        }
        if len >= IN_REQUIRED {
            let ran = run(&mut self.rc, lz, lzma, limits, given, IN_REQUIRED);
            match ran.result {
                Ok(n) => {
                    produced = n;
                },
                Err(e) => {
                    return Err(e);
                },
            }
            pos = ran.pos;
            proof {
                let n = self.machine(lzma@, lz@);
                assert(n.feed(given@.skip(pos as int)).coding.input =~= given@.skip(pos as int));
                assert(machine(self.rc, given@.skip(pos as int), lzma@, lz@) =~= n.feed(
                    given@.skip(pos as int),
                ));
            }
        }
        if !limits.end_reached && pos < len && len - pos < IN_REQUIRED {
            let ghost n = self.machine(lzma@, lz@);
            self.carry = tail_of(given, pos);
            proof {
                let n2 = self.machine(lzma@, lz@);
                assert(n.feed(given@.skip(pos as int)).coding.input =~= given@.skip(pos as int));
                assert(n2.feed(given@.skip(len as int)).coding.input =~= given@.skip(pos as int));
                assert(n2.feed(given@.skip(len as int)) =~= n.feed(given@.skip(pos as int)));
            }
            pos = len;
        }
        Ok((pos, produced))
    }

    /// Decodes what is left of the carry, with nothing to follow it.
    fn decode_finish_tail(
        &mut self,
        lz: &mut LzDecoder,
        lzma: &mut LzmaDecoder,
        limits: &mut Limits,
        input_end: InputEnd,
    ) -> (r: Result<usize, Error>)
        requires
            old(self).wf(),
            old(lz).wf(),
            old(lz)@.allocated,
            old(lzma).wf(),
            !old(limits).end_reached,
            input_end != InputEnd::More,
        ensures
            final(self).wf(),
            final(lz).wf(),
            final(lzma).wf(),
            final(lzma)@.props(0) == old(lzma)@.props(0),
            final(limits).allow_end_marker == old(limits).allow_end_marker,
            final(limits).compressed_left == old(limits).compressed_left,
            advanced(old(lz)@, final(lz)@),
            ({
                let p = old(lzma)@.props(old(lz)@.size);
                let m = old(self).machine(old(lzma)@, old(lz)@);
                let n = final(self).machine(final(lzma)@, final(lz)@);
                let limit = goal(old(lz)@.hist.len(), old(limits).remaining_size);
                let allow = old(limits).allow_end_marker;
                let end = final(limits).end_reached;
                let fresh = !old(lzma)@.end_marker && !old(limits).end_reached;
                &&& fresh ==> match r {
                    Ok(produced) => {
                        &&& produced == final(lz)@.hist.len() - old(lz)@.hist.len()
                        &&& left_over(*old(limits), *final(limits), old(lz)@, final(lz)@)
                        &&& stands(p, m, limit, allow, end, n)
                        &&& end ==> {
                            &&& final(lz)@.pending == 0
                            &&& settled(n) == n || n.coding.input.len() == 0
                            &&& final(lzma)@.end_marker || final(limits).remaining_size == 0
                        }
                        &&& !end ==> !final(lzma)@.end_marker
                        &&& !end && room(old(lz)@.space, old(limits).remaining_size) > 0 ==> {
                            &&& produced > 0
                            &&& final(lz)@.space == 0
                        }
                    },
                    Err(Error::Truncated) => {
                        &&& input_end == InputEnd::Caller
                        &&& starved(p, m, limit)
                    },
                    Err(Error::PastCompressedSize) => {
                        &&& input_end == InputEnd::Length
                        &&& starved(p, m, limit)
                    },
                    Err(e) => {
                        &&& fault(p, m, limit, allow, true, e)
                        &&& e != Error::EndNotFinished ==> *final(limits) == *old(limits)
                    },
                }
                &&& !fresh ==> match r {
                    Ok(produced) => {
                        &&& produced == final(lz)@.hist.len() - old(lz)@.hist.len()
                        &&& left_over(*old(limits), *final(limits), old(lz)@, final(lz)@)
                        &&& went_over(
                            p,
                            m,
                            limit,
                            *old(limits),
                            old(lzma)@.end_marker,
                            old(lz)@,
                            *final(limits),
                            final(lzma)@.end_marker,
                            final(lz)@,
                            n,
                        )
                    },
                    Err(e) => failed_over(
                        p,
                        m,
                        limit,
                        *old(limits),
                        old(lzma)@.end_marker,
                        old(lz)@,
                        e,
                    ),
                }
            }),
    {
        let ghost p = lzma@.props(lz@.size);
        let ghost m = self.machine(lzma@, lz@);
        let ghost limit = goal(lz@.hist.len(), limits.remaining_size);
        proof {
            reveal(went_over);
            reveal(failed_over);
            assert(self.carry@.skip(0) =~= self.carry@);
        }
        let ran = run(&mut self.rc, lz, lzma, limits, self.carry.as_slice(), 0);
        if ran.overran {
            // A symbol runs past the end of the input. What that means depends
            // on who said where the end was.
            return Err(
                match input_end {
                    InputEnd::Length => Error::PastCompressedSize,
                    _ => Error::Truncated,
                },
            );
        }
        match ran.result {
            Ok(produced) => {
                self.carry = tail_of(self.carry.as_slice(), ran.pos);
                Ok(produced)
            },
            Err(e) => {
                proof {
                    if !old(lzma)@.end_marker {
                        lemma_fault_before(p, m, limit, 0, limits.allow_end_marker, true, e);
                        lemma_fault_kind(p, m, limit, limits.allow_end_marker, true, e);
                    }
                }
                Err(e)
            },
        }
    }

    /// Decodes what is given, with what was carried over ahead of it.
    fn feed_given(
        &mut self,
        lz: &mut LzDecoder,
        lzma: &mut LzmaDecoder,
        given: &[u8],
        limits: &mut Limits,
    ) -> (r: Result<(usize, usize), Error>)
        requires
            old(self).wf(),
            old(lz).wf(),
            old(lz)@.allocated,
            old(lzma).wf(),
        ensures
            final(self).wf(),
            final(lz).wf(),
            final(lzma).wf(),
            final(lzma)@.props(0) == old(lzma)@.props(0),
            final(limits).allow_end_marker == old(limits).allow_end_marker,
            final(limits).compressed_left == old(limits).compressed_left,
            advanced(old(lz)@, final(lz)@),
            ({
                let p = old(lzma)@.props(old(lz)@.size);
                let m = old(self).machine(old(lzma)@, old(lz)@);
                let n = final(self).machine(final(lzma)@, final(lz)@);
                let limit = goal(old(lz)@.hist.len(), old(limits).remaining_size);
                let allow = old(limits).allow_end_marker;
                let end = final(limits).end_reached;
                let fresh = !old(lzma)@.end_marker && !old(limits).end_reached;
                &&& fresh ==> match r {
                    Ok((pos, produced)) => {
                        &&& pos <= given@.len()
                        &&& produced == final(lz)@.hist.len() - old(lz)@.hist.len()
                        &&& left_over(*old(limits), *final(limits), old(lz)@, final(lz)@)
                        &&& stands(p, m.feed(given@), limit, allow, end, n.feed(given@.skip(pos as int)))
                        &&& cautious(
                            p,
                            m.feed(given@),
                            limit,
                            IN_REQUIRED as nat,
                            final(lzma)@.end_marker,
                            n.feed(given@.skip(pos as int)),
                        )
                        &&& end ==> {
                            &&& final(lz)@.pending == 0
                            &&& tight(p, m.feed(given@), limit, n.feed(given@.skip(pos as int)))
                            &&& final(lzma)@.end_marker || final(limits).remaining_size == 0
                        }
                        &&& !end ==> {
                            &&& !final(lzma)@.end_marker
                            &&& {
                                ||| final(lz)@.space == 0
                                ||| room(old(lz)@.space, old(limits).remaining_size) == 0
                                ||| final(self)@.carry.len() < IN_REQUIRED && (pos == given@.len()
                                    || old(self)@.carry.len() > IN_REQUIRED && produced > 0)
                            }
                        }
                        &&& !end && produced == 0 && pos == 0 && room(
                            old(lz)@.space,
                            old(limits).remaining_size,
                        ) > 0 ==> given@.len() == 0 && final(self)@.carry.len() < IN_REQUIRED
                    },
                    Err(e) => {
                        &&& fault_before(p, m.feed(given@), limit, IN_REQUIRED as nat, allow, false, e)
                        &&& e != Error::EndNotFinished ==> !final(limits).end_reached
                    },
                }
                &&& !fresh ==> match r {
                    Ok((pos, produced)) => {
                        &&& pos <= given@.len()
                        &&& produced == final(lz)@.hist.len() - old(lz)@.hist.len()
                        &&& left_over(*old(limits), *final(limits), old(lz)@, final(lz)@)
                        &&& old(limits).end_reached && old(self)@.carry.len() == 0 ==> {
                            &&& pos == 0
                            &&& final(self)@ == old(self)@
                            &&& final(lz)@ == old(lz)@
                            &&& final(lzma)@ == old(lzma)@
                        }
                        &&& went_over(
                            p,
                            m.feed(given@),
                            limit,
                            *old(limits),
                            old(lzma)@.end_marker,
                            old(lz)@,
                            *final(limits),
                            final(lzma)@.end_marker,
                            final(lz)@,
                            n.feed(given@.skip(pos as int)),
                        )
                    },
                    Err(e) => failed_over(
                        p,
                        m.feed(given@),
                        limit,
                        *old(limits),
                        old(lzma)@.end_marker,
                        old(lz)@,
                        e,
                    ),
                }
            }),
    {
        let ghost p = lzma@.props(lz@.size);
        let ghost m = self.machine(lzma@, lz@);
        let ghost limit = goal(lz@.hist.len(), limits.remaining_size);
        let ghost allow = limits.allow_end_marker;
        let ghost all = m.feed(given@);
        let ghost fresh = !lzma@.end_marker && !limits.end_reached;
        let len = given.len();
        proof {
            lz.lemma_wf();
            assert(all.wf(p));
            assert(given@.skip(0) =~= given@);
            lemma_arrives_here(p, all, limit);
            lemma_cautious_here(p, all, limit, IN_REQUIRED as nat);
            if !fresh {
                lemma_over_here(p, all, limit, *limits, lzma@.end_marker, lz@, *limits);
            }
        }
        let mut in_pos: usize = 0;
        let mut produced: usize = 0;
        // Set when the carry could not be used up. The rest of the input cannot
        // be decoded in place until it has been.
        let mut blocked = false;
        if self.carry.len() > 0 {
            match self.feed_carry(lz, lzma, given, limits) {
                Ok((pos, n, b)) => {
                    in_pos = pos;
                    produced = n;
                    blocked = b;
                },
                Err(e) => {
                    return Err(e);
                },
            }
        }
        if !blocked && !limits.end_reached {
            let ghost a = self.machine(lzma@, lz@).feed(given@.skip(in_pos as int));
            proof {
                if !fresh {
                    lemma_over_chain(
                        p,
                        all,
                        limit,
                        *old(limits),
                        old(lzma)@.end_marker,
                        old(lz)@,
                        *limits,
                        lzma@.end_marker,
                        lz@,
                        a,
                        *limits,
                    );
                    reveal(went_over);
                }
            }
            match self.feed_direct(lz, lzma, &given[in_pos..len], limits) {
                Ok((pos, n)) => {
                    proof {
                        let b = self.machine(lzma@, lz@).feed(given@.skip(in_pos + pos));
                        assert(given@.skip(in_pos as int).skip(pos as int) =~= given@.skip(
                            in_pos + pos,
                        ));
                        if fresh {
                            lemma_stands_chain(p, all, limit, allow, limits.end_reached, a, b);
                            lemma_cautious_chain(
                                p,
                                all,
                                limit,
                                IN_REQUIRED as nat,
                                a,
                                lzma@.end_marker,
                                b,
                            );
                            if limits.end_reached {
                                lemma_tight_chain(p, all, limit, a, b);
                            }
                        }
                    }
                    in_pos = in_pos + pos;
                    produced = produced + n;
                },
                Err(e) => {
                    proof {
                        if fresh {
                            lemma_fault_before_chain(
                                p,
                                all,
                                limit,
                                IN_REQUIRED as nat,
                                allow,
                                false,
                                a,
                                e,
                            );
                        }
                    }
                    return Err(e);
                },
            }
        }
        Ok((in_pos, produced))
    }

    /// Runs one decode pass over `input`. Returns how many bytes of it were
    /// taken in, and how many were decoded into the dictionary.
    ///
    /// `input_end` says whether anything follows, and if not, who said so. A
    /// symbol that needs more bytes than there are is then an error of
    /// whichever kind the end came from.
    #[verifier::rlimit(80)]
    pub fn feed(
        &mut self,
        lz: &mut LzDecoder,
        lzma: &mut LzmaDecoder,
        input: &[u8],
        limits: &mut Limits,
        input_end: InputEnd,
    ) -> (r: Result<(usize, usize), Error>)
        requires
            old(self).wf(),
            old(lz).wf(),
            old(lz)@.allocated,
            old(lzma).wf(),
        ensures
            final(self).wf(),
            final(lz).wf(),
            final(lzma).wf(),
            final(lzma)@.props(0) == old(lzma)@.props(0),
            final(limits).allow_end_marker == old(limits).allow_end_marker,
            advanced(old(lz)@, final(lz)@),
            ({
                let p = old(lzma)@.props(old(lz)@.size);
                let m = old(self).machine(old(lzma)@, old(lz)@);
                let n = final(self).machine(final(lzma)@, final(lz)@);
                let limit = goal(old(lz)@.hist.len(), old(limits).remaining_size);
                let allow = old(limits).allow_end_marker;
                let given = within_budget(input@, old(limits).compressed_left);
                let fresh = !old(lzma)@.end_marker && !old(limits).end_reached;
                &&& fresh ==> match r {
                    Ok((consumed, produced)) => {
                        &&& consumed <= given.len()
                        &&& produced == final(lz)@.hist.len() - old(lz)@.hist.len()
                        &&& final(limits).compressed_left == (match old(limits).compressed_left {
                            Some(left) => Some((left - consumed) as u64),
                            None => None,
                        })
                        &&& left_over(*old(limits), *final(limits), old(lz)@, final(lz)@)
                        &&& stands(
                            p,
                            m.feed(input@.take(consumed as int)),
                            limit,
                            allow,
                            final(limits).end_reached,
                            n,
                        )
                        // While more may follow, no symbol is begun that might
                        // not be there as a whole.
                        &&& input_end == InputEnd::More ==> cautious(
                            p,
                            m.feed(given),
                            limit,
                            IN_REQUIRED as nat,
                            final(lzma)@.end_marker,
                            n.feed(given.skip(consumed as int)),
                        )
                        &&& final(limits).end_reached ==> {
                            &&& final(lz)@.pending == 0
                            &&& final(lzma)@.end_marker || final(limits).remaining_size == 0
                            &&& {
                                ||| tight(p, m.feed(input@.take(consumed as int)), limit, n)
                                ||| input_end != InputEnd::More && consumed == given.len()
                                    && final(self)@.carry.len() == 0
                            }
                        }
                        // Nothing but a lack of room or of input stops a pass, but
                        // for one that had too much carried over to take all of
                        // the input.
                        &&& !final(limits).end_reached ==> {
                            &&& !final(lzma)@.end_marker
                            &&& {
                                ||| final(lz)@.space == 0
                                ||| room(old(lz)@.space, old(limits).remaining_size) == 0
                                ||| input_end == InputEnd::More && final(self)@.carry.len()
                                    < IN_REQUIRED && consumed == given.len()
                                ||| old(self)@.carry.len() > IN_REQUIRED && consumed < given.len()
                                    && produced > 0
                            }
                        }
                    },
                    Err(Error::Truncated) => {
                        &&& input_end == InputEnd::Caller
                        &&& starved(p, m.feed(given), limit)
                    },
                    Err(Error::PastCompressedSize) => {
                        &&& input_end == InputEnd::Length
                        &&& starved(p, m.feed(given), limit)
                    },
                    Err(e) => {
                        &&& fault(p, m.feed(given), limit, allow, input_end != InputEnd::More, e)
                        &&& input_end == InputEnd::More ==> fault_before(
                            p,
                            m.feed(given),
                            limit,
                            IN_REQUIRED as nat,
                            allow,
                            false,
                            e,
                        )
                        &&& e != Error::EndNotFinished ==> !final(limits).end_reached
                    },
                }
                &&& !fresh ==> match r {
                    Ok((consumed, produced)) => {
                        &&& consumed <= given.len()
                        &&& produced == final(lz)@.hist.len() - old(lz)@.hist.len()
                        &&& final(limits).compressed_left == (match old(limits).compressed_left {
                            Some(left) => Some((left - consumed) as u64),
                            None => None,
                        })
                        &&& left_over(*old(limits), *final(limits), old(lz)@, final(lz)@)
                        &&& old(limits).end_reached && (old(self)@.carry.len() == 0 || given.len()
                            == 0 && input_end != InputEnd::More) ==> {
                            &&& consumed == 0
                            &&& final(self)@ == old(self)@
                            &&& final(lz)@ == old(lz)@
                            &&& final(lzma)@ == old(lzma)@
                        }
                        &&& went_over(
                            p,
                            m.feed(given),
                            limit,
                            *old(limits),
                            old(lzma)@.end_marker,
                            old(lz)@,
                            *final(limits),
                            final(lzma)@.end_marker,
                            final(lz)@,
                            n.feed(given.skip(consumed as int)),
                        )
                    },
                    Err(e) => failed_over(
                        p,
                        m.feed(given),
                        limit,
                        *old(limits),
                        old(lzma)@.end_marker,
                        old(lz)@,
                        e,
                    ),
                }
            }),
            // A symbol that is cut short is an error of the end that cut it.
            !old(lzma)@.end_marker && !old(limits).end_reached && input_end != InputEnd::More
                && starved(
                old(lzma)@.props(old(lz)@.size),
                old(self).machine(old(lzma)@, old(lz)@).feed(
                    within_budget(input@, old(limits).compressed_left),
                ),
                goal(old(lz)@.hist.len(), old(limits).remaining_size),
            ) ==> match r {
                Ok((consumed, produced)) => {
                    ||| final(lz)@.space == 0
                    ||| room(old(lz)@.space, old(limits).remaining_size) == 0
                    ||| old(self)@.carry.len() > IN_REQUIRED && produced > 0 && consumed
                        < within_budget(input@, old(limits).compressed_left).len()
                },
                Err(e) => e == (if input_end == InputEnd::Length {
                    Error::PastCompressedSize
                } else {
                    Error::Truncated
                }),
            },
    {
        // The budget is applied before anything decides where a symbol may
        // start, so that no symbol can reach a byte it does not cover.
        let mut len = input.len();
        if let Some(left) = limits.compressed_left {
            if left < len as u64 {
                len = left as usize;
            }
        }
        let given = &input[0..len];
        let ghost p = lzma@.props(lz@.size);
        let ghost m = self.machine(lzma@, lz@);
        let ghost limit = goal(lz@.hist.len(), limits.remaining_size);
        let ghost allow = limits.allow_end_marker;
        let ghost all = m.feed(given@);
        let ghost fresh = !lzma@.end_marker && !limits.end_reached;
        proof {
            lz.lemma_wf();
            assert(given@ =~= within_budget(input@, limits.compressed_left));
            assert(m.wf(p));
            assert(all.wf(p));
            assert(given@.skip(0) =~= given@);
            lemma_arrives_here(p, all, limit);
            lemma_cautious_here(p, all, limit, IN_REQUIRED as nat);
            if !fresh {
                lemma_over_here(p, all, limit, *limits, lzma@.end_marker, lz@, *limits);
            }
        }
        let ends_here = match input_end {
            InputEnd::More => false,
            _ => true,
        };
        let mut in_pos: usize = 0;
        let mut produced: usize = 0;
        // With nothing fresh and nothing to follow, only the end is left to see
        // to.
        if !(ends_here && len == 0) {
            match self.feed_given(lz, lzma, given, limits) {
                Ok((pos, n)) => {
                    in_pos = pos;
                    produced = n;
                },
                Err(e) => {
                    proof {
                        if fresh {
                            lemma_fault_before(p, all, limit, IN_REQUIRED as nat, allow, false, e);
                            lemma_fault_last(p, all, limit, allow, input_end != InputEnd::More, e);
                            lemma_fault_kind(p, all, limit, allow, false, e);
                            lemma_fault_not_starved(p, all, limit, allow, false, e);
                        }
                    }
                    return Err(e);
                },
            }
        }
        // Bytes taken into the carry count against the budget too: they belong
        // to this payload.
        let ghost before = *limits;
        if let Some(left) = limits.compressed_left {
            limits.compressed_left = Some(left - in_pos as u64);
        }
        proof {
            if !fresh {
                lemma_over_same(
                    p,
                    all,
                    limit,
                    *old(limits),
                    old(lzma)@.end_marker,
                    old(lz)@,
                    before,
                    lzma@.end_marker,
                    lz@,
                    self.machine(lzma@, lz@).feed(given@.skip(in_pos as int)),
                    *limits,
                );
            }
        }
        if ends_here && !limits.end_reached && in_pos >= len {
            let ghost a = self.machine(lzma@, lz@);
            proof {
                assert(a.feed(given@.skip(in_pos as int)) =~= a) by {
                    assert(a.coding.input + given@.skip(in_pos as int) =~= a.coding.input);
                }
                if !fresh {
                    lemma_over_chain(
                        p,
                        all,
                        limit,
                        *old(limits),
                        old(lzma)@.end_marker,
                        old(lz)@,
                        *limits,
                        lzma@.end_marker,
                        lz@,
                        a,
                        *limits,
                    );
                }
            }
            match self.decode_finish_tail(lz, lzma, limits, input_end) {
                Ok(n) => {
                    produced = produced + n;
                    proof {
                        let b = self.machine(lzma@, lz@);
                        if fresh {
                            lemma_stands_chain(p, all, limit, allow, limits.end_reached, a, b);
                        }
                        if limits.end_reached && settled(b) == b {
                            reveal(tight);
                        }
                        assert(b.feed(given@.skip(in_pos as int)) =~= b) by {
                            assert(b.coding.input + given@.skip(in_pos as int) =~= b.coding.input);
                        }
                    }
                },
                Err(e) => {
                    proof {
                        if fresh && starved(p, a, limit) {
                            lemma_starved_chain(p, all, limit, a);
                        }
                        if fresh && fault(p, a, limit, allow, true, e) {
                            lemma_fault_chain(p, all, limit, allow, true, a, e);
                            lemma_fault_kind(p, all, limit, allow, true, e);
                            lemma_fault_not_starved(p, all, limit, allow, true, e);
                        }
                    }
                    return Err(e);
                },
            }
        }
        proof {
            let n = self.machine(lzma@, lz@);
            let taken = m.feed(input@.take(in_pos as int));
            let more = given@.skip(in_pos as int);
            assert(taken.feed(more).coding.input =~= all.coding.input);
            assert(taken.feed(more) =~= all);
            if fresh && limits.end_reached {
                lemma_ended_not_starved(p, all, limit, n.feed(more));
                if tight(p, all, limit, n.feed(more)) {
                    lemma_tight_exact(p, taken, limit, n, more);
                }
            }
            if fresh {
                lemma_stands_exact(p, taken, limit, allow, limits.end_reached, n, more);
            }
        }
        Ok((in_pos, produced))
    }
}

/// A fault is never a lack of bytes.
pub proof fn lemma_fault_kind(
    p: Props,
    m: Machine,
    limit: Option<nat>,
    allow_end_marker: bool,
    last: bool,
    e: Error,
)
    requires
        fault(p, m, limit, allow_end_marker, last, e),
    ensures
        e == Error::DistOverflow || e == Error::NotTerminated || e == Error::EndNotFinished,
{
    reveal(fault);
}

} // verus!
