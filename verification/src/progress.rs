//! A payload as a whole: symbol after symbol.
//!
//! However the bytes of a payload arrive, the symbols are the same ones in the
//! same order. The machines on the way are the machines of one chain, and what
//! differs is only how far along it a decoder has come.

use vstd::prelude::*;

use crate::accounting::{lemma_normalize, taken};
use crate::coding::{bit, normalize, Coding};
use crate::error::Error;
use crate::exactness::{lemma_normalize_exact, lemma_step_exact, spared};
use crate::locality::lemma_step;
use crate::symbol::{literal, step, symbol, Machine, Outcome, Props};

verus! {

/// As many bytes are there as were asked for.
pub open spec fn enough(m: Machine, limit: Option<nat>) -> bool {
    limit matches Some(l) && m.hist.len() >= l
}

/// A symbol may be begun: fewer than `limit` bytes have been decoded, at least
/// `floor` bytes are to come, and none has been found lacking.
pub open spec fn may_begin(m: Machine, limit: Option<nat>, floor: nat) -> bool {
    &&& !enough(m, limit)
    &&& m.coding.input.len() >= floor
    &&& m.coding.lack == 0
}

/// The machine after `n` symbols, each of which may be begun and is carried
/// out.
pub open spec fn steps(p: Props, m: Machine, limit: Option<nat>, floor: nat, n: nat) -> Option<
    Machine,
>
    decreases n,
{
    if n == 0 {
        Some(m)
    } else {
        match steps(p, m, limit, floor, (n - 1) as nat) {
            Some(k) => if may_begin(k, limit, floor) && step(p, k).1 == Outcome::Done {
                Some(step(p, k).0)
            } else {
                None
            },
            None => None,
        }
    }
}

/// `k` is `m` after some symbols, as in `steps`.
pub open spec fn reaches(p: Props, m: Machine, limit: Option<nat>, floor: nat, k: Machine) -> bool {
    exists|n: nat| #[trigger] steps(p, m, limit, floor, n) == Some(k)
}

/// Where a loop ends that decodes one symbol after the other while one may be
/// begun and the last one was carried out, and what came of the last one.
pub open spec fn looped(p: Props, m: Machine, limit: nat, floor: nat) -> (Machine, Outcome)
    decreases
            (if m.hist.len() < limit {
                limit - m.hist.len()
            } else {
                0
            }),
    when p.wf() && m.wf(p) via lemma_looped_ends
{
    if !may_begin(m, Some(limit), floor) {
        (m, Outcome::Done)
    } else {
        let (n, outcome) = step(p, m);
        if outcome == Outcome::Done {
            looped(p, n, limit, floor)
        } else {
            (n, outcome)
        }
    }
}

#[via_fn]
proof fn lemma_looped_ends(p: Props, m: Machine, limit: nat, floor: nat) {
    lemma_step(p, m, Seq::empty());
}

/// A loop over symbols can be begun at any of them.
pub proof fn lemma_looped_steps(p: Props, m: Machine, limit: nat, floor: nat, n: nat)
    requires
        p.wf(),
        m.wf(p),
        steps(p, m, Some(limit), floor, n) is Some,
    ensures
        looped(p, m, limit, floor) == looped(
            p,
            steps(p, m, Some(limit), floor, n)->0,
            limit,
            floor,
        ),
    decreases n,
{
    if n > 0 {
        lemma_looped_steps(p, m, limit, floor, (n - 1) as nat);
        lemma_steps(p, m, Some(limit), floor, (n - 1) as nat);
        let k = steps(p, m, Some(limit), floor, (n - 1) as nat)->0;
        lemma_step(p, k, Seq::empty());
    }
}

/// The machine with the byte taken in that the next bit would take in first.
pub open spec fn settled(m: Machine) -> Machine {
    Machine { coding: normalize(m.coding), ..m }
}

/// A decoder that went over the payload of `m`, with no byte found lacking, can
/// stand at `a`: behind any of its symbols, with or without the byte that the
/// next bit would take in first.
#[verifier::opaque]
pub open spec fn arrives(p: Props, m: Machine, limit: Option<nat>, a: Machine) -> bool {
    &&& a.coding.lack == 0
    &&& exists|k: Machine| #[trigger]
        reaches(p, m, limit, 0, k) && k.coding.lack == 0 && (a == k || a == settled(k))
}

/// The payload of `m` ends with an end marker, and a decoder behind it can
/// stand at `a`.
#[verifier::opaque]
pub open spec fn marked(p: Props, m: Machine, limit: Option<nat>, a: Machine) -> bool {
    &&& a.coding.lack == 0
    &&& exists|k: Machine| #[trigger]
        reaches(p, m, limit, 0, k) && may_begin(k, limit, 0) && step(p, k).1 == Outcome::EndMarker
            && step(p, k).0.coding.lack == 0 && (a == step(p, k).0 || a == settled(step(p, k).0))
}

/// The symbol at `k`, or the data there, is at fault.
pub open spec fn faulty(
    p: Props,
    k: Machine,
    limit: Option<nat>,
    allow_end_marker: bool,
    last: bool,
    e: Error,
) -> bool {
    let (n, outcome) = step(p, k);
    match e {
        // A distance that reaches too far back, or an end marker where there
        // may be none.
        Error::DistOverflow => may_begin(k, limit, 0) && n.coding.lack == 0 && (outcome
            == Outcome::Overflow || outcome == Outcome::EndMarker && !allow_end_marker),
        // An end marker behind which the coder is not at zero: with one more byte
        // taken in, or as it is, where there is none to take in and none follows
        // (`last`), or may have been none in the piece of input at hand.
        Error::NotTerminated => {
            &&& may_begin(k, limit, 0)
            &&& n.coding.lack == 0
            &&& outcome == Outcome::EndMarker
            &&& allow_end_marker
            &&& {
                ||| settled(n).coding.lack == 0 && settled(n).coding.code != 0
                ||| n.coding.code != 0 && (widest(p, k) || last && n.coding.input.len() == 0)
            }
        },
        // A copy that runs past the size.
        Error::EndNotFinished => k.coding.lack == 0 && limit is Some && k.hist.len() > limit->0,
        _ => false,
    }
}

/// The payload of `m` comes to a symbol or to data that is at fault.
#[verifier::opaque]
pub open spec fn fault(
    p: Props,
    m: Machine,
    limit: Option<nat>,
    allow_end_marker: bool,
    last: bool,
    e: Error,
) -> bool {
    exists|k: Machine| #[trigger]
        reaches(p, m, limit, 0, k) && faulty(p, k, limit, allow_end_marker, last, e)
}

/// The payload of `m` comes to a symbol that needs more bytes than there are.
#[verifier::opaque]
pub open spec fn starved(p: Props, m: Machine, limit: Option<nat>) -> bool {
    exists|k: Machine| #[trigger]
        reaches(p, m, limit, 0, k) && may_begin(k, limit, 0) && step(p, k).0.coding.lack > 0
}

/// The payload of `m` comes to a place where a byte is lacking: for a symbol, or
/// for the coder to be brought back above its least range.
#[verifier::opaque]
pub open spec fn short(p: Props, m: Machine, limit: Option<nat>) -> bool {
    exists|k: Machine| #[trigger]
        reaches(p, m, limit, 0, k) && k.coding.lack == 0 && {
            ||| may_begin(k, limit, 0) && step(p, k).0.coding.lack > 0
            ||| settled(k).coding.lack > 0
            ||| may_begin(k, limit, 0) && step(p, k).1 == Outcome::EndMarker && settled(
                step(p, k).0,
            ).coding.lack > 0
        }
}

/// The symbol at `j` takes in as many bytes as a symbol can.
pub open spec fn widest(p: Props, j: Machine) -> bool {
    taken(j.coding, step(p, j).0.coding) == 20
}

/// A decoder at `a` has taken in the byte that the next bit would take in first,
/// if there is one to take in. One that goes over its input piece by piece may
/// be without it, where the last symbol took as many bytes as a symbol can, and
/// so all of a piece.
#[verifier::opaque]
pub open spec fn tight(p: Props, m: Machine, limit: Option<nat>, a: Machine) -> bool {
    ||| settled(a) == a
    ||| exists|j: Machine| #[trigger]
        reaches(p, m, limit, 0, j) && may_begin(j, limit, 0) && widest(p, j) && step(p, j).0 == a
}

/// A decoder can stand at `a` that begins a symbol only with at least `floor`
/// bytes to come: behind symbols that were begun like that, and where it was
/// `stopped` by one, behind an end marker that was.
#[verifier::opaque]
pub open spec fn cautious(
    p: Props,
    m: Machine,
    limit: Option<nat>,
    floor: nat,
    stopped: bool,
    a: Machine,
) -> bool {
    exists|k: Machine| #[trigger] reaches(p, m, limit, floor, k) && if stopped {
        &&& may_begin(k, limit, floor)
        &&& step(p, k).1 == Outcome::EndMarker
        &&& a == step(p, k).0 || a == settled(step(p, k).0)
    } else {
        a == k || a == settled(k)
    }
}

/// The payload of `m` comes to a symbol or to data that is at fault, and no
/// symbol is begun on the way with fewer than `floor` bytes to come.
#[verifier::opaque]
pub open spec fn fault_before(
    p: Props,
    m: Machine,
    limit: Option<nat>,
    floor: nat,
    allow_end_marker: bool,
    last: bool,
    e: Error,
) -> bool {
    exists|k: Machine| #[trigger]
        reaches(p, m, limit, floor, k) && faulty(p, k, limit, allow_end_marker, last, e) && (enough(
            k,
            limit,
        ) || k.coding.input.len() >= floor)
}

/// The second limit allows whatever the first one does.
pub open spec fn looser(a: Option<nat>, b: Option<nat>) -> bool {
    match b {
        Some(l) => a matches Some(k) && k <= l,
        None => true,
    }
}

/// What holds of a machine holds after any number of symbols, and only bytes
/// are added to the data.
pub proof fn lemma_steps(p: Props, m: Machine, limit: Option<nat>, floor: nat, n: nat)
    requires
        p.wf(),
        m.wf(p),
        steps(p, m, limit, floor, n) is Some,
    ensures
        ({
            let k = steps(p, m, limit, floor, n)->0;
            &&& k.wf(p)
            &&& m.hist.is_prefix_of(k.hist)
            &&& n > 0 ==> k.hist.len() > m.hist.len()
            &&& k.coding.input.len() <= m.coding.input.len()
            &&& floor >= 20 && m.coding.lack == 0 ==> k.coding.lack == 0
        }),
    decreases n,
{
    if n > 0 {
        lemma_steps(p, m, limit, floor, (n - 1) as nat);
        let k = steps(p, m, limit, floor, (n - 1) as nat)->0;
        lemma_step(p, k, Seq::empty());
    }
}

/// More input behind what was enough changes nothing.
pub proof fn lemma_steps_feed(
    p: Props,
    m: Machine,
    limit: Option<nat>,
    floor: nat,
    n: nat,
    more: Seq<u8>,
)
    requires
        p.wf(),
        m.wf(p),
        steps(p, m, limit, floor, n) is Some,
        steps(p, m, limit, floor, n)->0.coding.lack == 0,
    ensures
        steps(p, m.feed(more), limit, floor, n) == Some(
            (steps(p, m, limit, floor, n)->0).feed(more),
        ),
    decreases n,
{
    if n > 0 {
        let k = steps(p, m, limit, floor, (n - 1) as nat)->0;
        lemma_steps(p, m, limit, floor, (n - 1) as nat);
        lemma_steps_feed(p, m, limit, floor, (n - 1) as nat, more);
        lemma_step(p, k, more);
    }
}

/// What can be begun under a limit can be begun under a looser one.
pub proof fn lemma_steps_looser(
    p: Props,
    m: Machine,
    limit: Option<nat>,
    floor: nat,
    n: nat,
    limit2: Option<nat>,
    floor2: nat,
)
    requires
        steps(p, m, limit, floor, n) is Some,
        looser(limit, limit2),
        floor2 <= floor,
    ensures
        steps(p, m, limit2, floor2, n) == steps(p, m, limit, floor, n),
    decreases n,
{
    if n > 0 {
        lemma_steps_looser(p, m, limit, floor, (n - 1) as nat, limit2, floor2);
    }
}

/// Two stretches of symbols, one behind the other.
pub proof fn lemma_steps_chain(
    p: Props,
    m: Machine,
    limit: Option<nat>,
    floor: nat,
    a: nat,
    b: nat,
)
    requires
        steps(p, m, limit, floor, a) is Some,
    ensures
        steps(p, steps(p, m, limit, floor, a)->0, limit, floor, b) == steps(
            p,
            m,
            limit,
            floor,
            a + b,
        ),
    decreases b,
{
    if b > 0 {
        lemma_steps_chain(p, m, limit, floor, a, (b - 1) as nat);
        assert((a + b - 1) as nat == a + (b - 1) as nat);
    }
}

/// A stretch of symbols has a beginning.
pub proof fn lemma_steps_less(p: Props, m: Machine, limit: Option<nat>, floor: nat, a: nat, b: nat)
    requires
        a <= b,
        steps(p, m, limit, floor, b) is Some,
    ensures
        steps(p, m, limit, floor, a) is Some,
    decreases b,
{
    if a < b {
        lemma_steps_less(p, m, limit, floor, a, (b - 1) as nat);
    }
}

/// Of two machines on the way, the earlier one goes on to the later one.
pub proof fn lemma_one_chain(p: Props, m: Machine, limit: Option<nat>, a: nat, b: nat)
    requires
        p.wf(),
        m.wf(p),
        a <= b,
        steps(p, m, limit, 0, b) is Some,
    ensures
        steps(p, m, limit, 0, a) is Some,
        ({
            let k = steps(p, m, limit, 0, a)->0;
            let j = steps(p, m, limit, 0, b)->0;
            &&& k.hist.is_prefix_of(j.hist)
            &&& a < b ==> {
                &&& may_begin(k, limit, 0)
                &&& step(p, k).1 == Outcome::Done
                &&& j.coding.lack == 0 ==> step(p, k).0.coding.lack == 0
            }
        }),
{
    lemma_steps_less(p, m, limit, 0, a, b);
    lemma_steps(p, m, limit, 0, a);
    lemma_steps_chain(p, m, limit, 0, a, (b - a) as nat);
    let k = steps(p, m, limit, 0, a)->0;
    lemma_steps(p, k, limit, 0, (b - a) as nat);
    if a < b {
        lemma_steps_less(p, m, limit, 0, a + 1, b);
        if a + 1 < b {
            lemma_steps_less(p, m, limit, 0, a + 2, b);
        }
    }
}

/// The byte that the next bit would take in first may as well be taken in
/// before.
pub proof fn lemma_settled(p: Props, m: Machine)
    requires
        m.coding.wf(),
    ensures
        settled(settled(m)) == settled(m),
        step(p, settled(m)) == step(p, m),
        settled(m).coding.input.len() <= m.coding.input.len(),
        settled(m).coding.lack >= m.coding.lack,
        settled(m).coding.wf(),
        settled(m).coding.probs == m.coding.probs,
{
    lemma_normalize(m.coding);
    let n = settled(m);
    assert(normalize(n.coding) == n.coding);
    assert forall|i: int| bit(n.coding, i) == bit(m.coding, i) by {}
    assert(symbol(p, n) == symbol(p, m)) by {
        reveal(symbol);
        assert forall|c: Coding| literal(p, n, c) == literal(p, m, c) by {}
    }
}

proof fn lemma_steps_settled(p: Props, m: Machine, limit: Option<nat>, floor: nat, n: nat)
    requires
        m.coding.wf(),
        n > 0,
        steps(p, settled(m), limit, floor, n) is Some,
    ensures
        steps(p, m, limit, floor, n) == steps(p, settled(m), limit, floor, n),
    decreases n,
{
    lemma_settled(p, m);
    if n > 1 {
        lemma_steps_settled(p, m, limit, floor, (n - 1) as nat);
    } else {
        assert(steps(p, m, limit, floor, 0) == Some(m));
        assert(steps(p, settled(m), limit, floor, 0) == Some(settled(m)));
    }
}

/// A decoder can stand where it is.
pub proof fn lemma_arrives_here(p: Props, m: Machine, limit: Option<nat>)
    requires
        m.coding.lack == 0,
    ensures
        arrives(p, m, limit, m),
{
    reveal(arrives);
    assert(steps(p, m, limit, 0, 0) == Some(m));
    assert(reaches(p, m, limit, 0, m));
}

/// Where a decoder goes on from `a` to `k`, one that went the whole way from
/// `m` comes to the same place, but for the byte that the next bit would take
/// in first.
proof fn lemma_reach_chain(p: Props, m: Machine, limit: Option<nat>, a: Machine, k: Machine) -> (j:
    Machine)
    requires
        p.wf(),
        m.wf(p),
        arrives(p, m, limit, a),
        reaches(p, a, limit, 0, k),
    ensures
        reaches(p, m, limit, 0, j),
        j == k || k == settled(j) && k.coding.lack == 0 && settled(k) == k,
        j.hist == k.hist,
        step(p, j) == step(p, k),
        k.coding.lack == 0 ==> j.coding.lack == 0,
{
    reveal(arrives);
    let i = choose|i: Machine| #[trigger]
        reaches(p, m, limit, 0, i) && i.coding.lack == 0 && (a == i || a == settled(i));
    let n = choose|n: nat| #[trigger] steps(p, m, limit, 0, n) == Some(i);
    let n2 = choose|n: nat| #[trigger] steps(p, a, limit, 0, n) == Some(k);
    lemma_steps(p, m, limit, 0, n);
    lemma_settled(p, i);
    if n2 == 0 {
        assert(k == a);
        i
    } else {
        if a != i {
            lemma_steps_settled(p, i, limit, 0, n2);
        }
        lemma_steps_chain(p, m, limit, 0, n, n2);
        assert(reaches(p, m, limit, 0, k));
        k
    }
}

/// A decoder that has gone on from where another could stand can stand where
/// one that went the whole way can.
pub proof fn lemma_arrives_chain(p: Props, m: Machine, limit: Option<nat>, a: Machine, b: Machine)
    requires
        p.wf(),
        m.wf(p),
        arrives(p, m, limit, a),
        arrives(p, a, limit, b),
    ensures
        arrives(p, m, limit, b),
{
    reveal(arrives);
    let k = choose|k: Machine| #[trigger]
        reaches(p, a, limit, 0, k) && k.coding.lack == 0 && (b == k || b == settled(k));
    let j = lemma_reach_chain(p, m, limit, a, k);
    assert(reaches(p, m, limit, 0, j));
}

/// The same, where the second stretch comes to an end marker.
pub proof fn lemma_marked_chain(p: Props, m: Machine, limit: Option<nat>, a: Machine, b: Machine)
    requires
        p.wf(),
        m.wf(p),
        arrives(p, m, limit, a),
        marked(p, a, limit, b),
    ensures
        marked(p, m, limit, b),
{
    reveal(marked);
    let k = choose|k: Machine| #[trigger]
        reaches(p, a, limit, 0, k) && may_begin(k, limit, 0) && step(p, k).1 == Outcome::EndMarker
            && step(p, k).0.coding.lack == 0 && (b == step(p, k).0 || b == settled(step(p, k).0));
    let j = lemma_reach_chain(p, m, limit, a, k);
    assert(reaches(p, m, limit, 0, j));
}

/// The same, where the second stretch comes to a fault.
pub proof fn lemma_fault_chain(
    p: Props,
    m: Machine,
    limit: Option<nat>,
    allow_end_marker: bool,
    last: bool,
    a: Machine,
    e: Error,
)
    requires
        p.wf(),
        m.wf(p),
        arrives(p, m, limit, a),
        fault(p, a, limit, allow_end_marker, last, e),
    ensures
        fault(p, m, limit, allow_end_marker, last, e),
{
    reveal(fault);
    let k = choose|k: Machine| #[trigger]
        reaches(p, a, limit, 0, k) && faulty(p, k, limit, allow_end_marker, last, e);
    let j = lemma_reach_chain(p, m, limit, a, k);
    let n = choose|n: nat| #[trigger] steps(p, m, limit, 0, n) == Some(j);
    lemma_steps(p, m, limit, 0, n);
    lemma_step(p, j, Seq::empty());
    lemma_settled(p, j);
    assert(reaches(p, m, limit, 0, j) && faulty(p, j, limit, allow_end_marker, last, e));
}

/// The same, where the second stretch runs out of bytes.
pub proof fn lemma_starved_chain(p: Props, m: Machine, limit: Option<nat>, a: Machine)
    requires
        p.wf(),
        m.wf(p),
        arrives(p, m, limit, a),
        starved(p, a, limit),
    ensures
        starved(p, m, limit),
{
    reveal(starved);
    let k = choose|k: Machine| #[trigger]
        reaches(p, a, limit, 0, k) && may_begin(k, limit, 0) && step(p, k).0.coding.lack > 0;
    let j = lemma_reach_chain(p, m, limit, a, k);
    assert(reaches(p, m, limit, 0, j));
}

/// The same, where the second stretch comes to a place where a byte is lacking.
pub proof fn lemma_short_chain(p: Props, m: Machine, limit: Option<nat>, a: Machine)
    requires
        p.wf(),
        m.wf(p),
        arrives(p, m, limit, a),
        short(p, a, limit),
    ensures
        short(p, m, limit),
{
    reveal(short);
    let k = choose|k: Machine| #[trigger]
        reaches(p, a, limit, 0, k) && k.coding.lack == 0 && {
            ||| may_begin(k, limit, 0) && step(p, k).0.coding.lack > 0
            ||| settled(k).coding.lack > 0
            ||| may_begin(k, limit, 0) && step(p, k).1 == Outcome::EndMarker && settled(
                step(p, k).0,
            ).coding.lack > 0
        };
    let j = lemma_reach_chain(p, m, limit, a, k);
    assert(reaches(p, m, limit, 0, j));
}

/// A fault stays one, whatever follows.
pub proof fn lemma_fault_feed(
    p: Props,
    m: Machine,
    limit: Option<nat>,
    allow_end_marker: bool,
    last: bool,
    e: Error,
    more: Seq<u8>,
)
    requires
        p.wf(),
        m.wf(p),
        fault(p, m, limit, allow_end_marker, false, e),
    ensures
        fault(p, m.feed(more), limit, allow_end_marker, last, e),
{
    reveal(fault);
    let k = choose|k: Machine| #[trigger]
        reaches(p, m, limit, 0, k) && faulty(p, k, limit, allow_end_marker, false, e);
    let n = choose|n: nat| #[trigger] steps(p, m, limit, 0, n) == Some(k);
    lemma_steps(p, m, limit, 0, n);
    lemma_steps_feed(p, m, limit, 0, n, more);
    lemma_step(p, k, more);
    lemma_settled_feed(step(p, k).0, more);
    assert(reaches(p, m.feed(more), limit, 0, k.feed(more)));
    assert(faulty(p, k.feed(more), limit, allow_end_marker, last, e));
}

/// Input that was not taken in was not needed.
proof fn lemma_steps_exact(
    p: Props,
    m: Machine,
    limit: Option<nat>,
    floor: nat,
    n: nat,
    more: Seq<u8>,
)
    requires
        p.wf(),
        m.wf(p),
        m.coding.lack == 0,
        steps(p, m.feed(more), limit, floor, n) is Some,
        spared(m.coding, steps(p, m.feed(more), limit, floor, n)->0.coding, more),
    ensures
        ({
            let k = steps(p, m, limit, 0, n);
            &&& k is Some
            &&& k->0.coding.lack == 0
            &&& steps(p, m.feed(more), limit, floor, n) == Some((k->0).feed(more))
        }),
    decreases n,
{
    if n > 0 {
        lemma_steps(p, m.feed(more), limit, floor, (n - 1) as nat);
        let j = steps(p, m.feed(more), limit, floor, (n - 1) as nat)->0;
        lemma_step(p, j, Seq::empty());
        lemma_steps_exact(p, m, limit, floor, (n - 1) as nat, more);
        lemma_steps(p, m, limit, 0, (n - 1) as nat);
        let k = steps(p, m, limit, 0, (n - 1) as nat)->0;
        lemma_step_exact(p, k, more);
    }
}

proof fn lemma_unfeed(a: Machine, b: Machine, more: Seq<u8>)
    requires
        a.feed(more) == b.feed(more),
    ensures
        a == b,
{
    let x = a.coding.input;
    let y = b.coding.input;
    assert((x + more).len() == (y + more).len());
    assert(x =~= (x + more).take(x.len() as int));
    assert(y =~= (y + more).take(y.len() as int));
    assert(a.feed(more).coding.input == b.feed(more).coding.input);
    assert(a.coding =~= b.coding);
}

/// A decoder that left `more` alone stands where it would without it.
pub proof fn lemma_arrives_exact(
    p: Props,
    m: Machine,
    limit: Option<nat>,
    a: Machine,
    more: Seq<u8>,
)
    requires
        p.wf(),
        m.wf(p),
        m.coding.lack == 0,
        arrives(p, m.feed(more), limit, a.feed(more)),
    ensures
        arrives(p, m, limit, a),
{
    reveal(arrives);
    let b = a.feed(more);
    let j = choose|k: Machine| #[trigger]
        reaches(p, m.feed(more), limit, 0, k) && k.coding.lack == 0 && (b == k || b == settled(k));
    let n = choose|n: nat| #[trigger] steps(p, m.feed(more), limit, 0, n) == Some(j);
    lemma_steps(p, m.feed(more), limit, 0, n);
    lemma_settled(p, j);
    lemma_steps_exact(p, m, limit, 0, n, more);
    let k = steps(p, m, limit, 0, n)->0;
    assert(reaches(p, m, limit, 0, k));
    if b == j {
        lemma_unfeed(a, k, more);
    } else {
        lemma_normalize_exact(k.coding, more);
        lemma_unfeed(a, settled(k), more);
    }
}

/// The same, behind an end marker.
pub proof fn lemma_marked_exact(
    p: Props,
    m: Machine,
    limit: Option<nat>,
    a: Machine,
    more: Seq<u8>,
)
    requires
        p.wf(),
        m.wf(p),
        m.coding.lack == 0,
        marked(p, m.feed(more), limit, a.feed(more)),
    ensures
        marked(p, m, limit, a),
{
    reveal(marked);
    let b = a.feed(more);
    let j = choose|k: Machine| #[trigger]
        reaches(p, m.feed(more), limit, 0, k) && may_begin(k, limit, 0) && step(p, k).1
            == Outcome::EndMarker && step(p, k).0.coding.lack == 0 && (b == step(p, k).0 || b
            == settled(step(p, k).0));
    let n = choose|n: nat| #[trigger] steps(p, m.feed(more), limit, 0, n) == Some(j);
    lemma_steps(p, m.feed(more), limit, 0, n);
    lemma_step(p, j, Seq::empty());
    lemma_settled(p, step(p, j).0);
    lemma_steps_exact(p, m, limit, 0, n, more);
    let k = steps(p, m, limit, 0, n)->0;
    assert(reaches(p, m, limit, 0, k));
    lemma_steps(p, m, limit, 0, n);
    lemma_step_exact(p, k, more);
    if b == step(p, j).0 {
        lemma_unfeed(a, step(p, k).0, more);
    } else {
        lemma_normalize_exact(step(p, k).0.coding, more);
        lemma_unfeed(a, settled(step(p, k).0), more);
    }
}

/// More input behind what a decoder went over changes nothing.
pub proof fn lemma_arrives_feed(
    p: Props,
    m: Machine,
    limit: Option<nat>,
    a: Machine,
    more: Seq<u8>,
)
    requires
        p.wf(),
        m.wf(p),
        arrives(p, m, limit, a),
    ensures
        arrives(p, m.feed(more), limit, a.feed(more)),
{
    reveal(arrives);
    let k = choose|k: Machine| #[trigger]
        reaches(p, m, limit, 0, k) && k.coding.lack == 0 && (a == k || a == settled(k));
    let n = choose|n: nat| #[trigger] steps(p, m, limit, 0, n) == Some(k);
    lemma_steps_feed(p, m, limit, 0, n, more);
    assert(reaches(p, m.feed(more), limit, 0, k.feed(more)));
    lemma_settled_feed(k, more);
}

/// The same, behind an end marker.
pub proof fn lemma_marked_feed(
    p: Props,
    m: Machine,
    limit: Option<nat>,
    a: Machine,
    more: Seq<u8>,
)
    requires
        p.wf(),
        m.wf(p),
        marked(p, m, limit, a),
    ensures
        marked(p, m.feed(more), limit, a.feed(more)),
{
    reveal(marked);
    let k = choose|k: Machine| #[trigger]
        reaches(p, m, limit, 0, k) && may_begin(k, limit, 0) && step(p, k).1 == Outcome::EndMarker
            && step(p, k).0.coding.lack == 0 && (a == step(p, k).0 || a == settled(step(p, k).0));
    let n = choose|n: nat| #[trigger] steps(p, m, limit, 0, n) == Some(k);
    lemma_steps(p, m, limit, 0, n);
    lemma_steps_feed(p, m, limit, 0, n, more);
    assert(reaches(p, m.feed(more), limit, 0, k.feed(more)));
    lemma_step(p, k, more);
    lemma_settled_feed(step(p, k).0, more);
}

/// Behind an end marker the coder may be brought back above its least range, if
/// there is a byte for that.
pub proof fn lemma_marked_settles(p: Props, m: Machine, limit: Option<nat>, a: Machine)
    requires
        p.wf(),
        m.wf(p),
        marked(p, m, limit, a),
    ensures
        a.coding.wf(),
        settled(a).coding.lack == 0 ==> marked(p, m, limit, settled(a)),
        settled(a).coding.lack > 0 ==> short(p, m, limit),
{
    reveal(marked);
    reveal(short);
    let k = choose|k: Machine| #[trigger]
        reaches(p, m, limit, 0, k) && may_begin(k, limit, 0) && step(p, k).1 == Outcome::EndMarker
            && step(p, k).0.coding.lack == 0 && (a == step(p, k).0 || a == settled(step(p, k).0));
    let n = choose|n: nat| #[trigger] steps(p, m, limit, 0, n) == Some(k);
    lemma_steps(p, m, limit, 0, n);
    lemma_step(p, k, Seq::empty());
    lemma_settled(p, step(p, k).0);
    assert(reaches(p, m, limit, 0, k));
}

/// The byte that the next bit would take in first is the same, whatever follows.
pub proof fn lemma_settled_feed(m: Machine, more: Seq<u8>)
    ensures
        settled(m).coding.lack == m.coding.lack ==> settled(m.feed(more)) == settled(m).feed(more),
{
    if settled(m).coding.lack == m.coding.lack {
        assert(settled(m.feed(more)).coding =~= settled(m).feed(more).coding);
    }
}

/// What holds of the last byte holds whatever follows.
pub proof fn lemma_tight_feed(
    p: Props,
    m: Machine,
    limit: Option<nat>,
    a: Machine,
    more: Seq<u8>,
)
    requires
        p.wf(),
        m.wf(p),
        a.coding.lack == 0,
        tight(p, m, limit, a),
    ensures
        tight(p, m.feed(more), limit, a.feed(more)),
{
    reveal(tight);
    if settled(a) == a {
        lemma_settled_feed(a, more);
    } else {
        let j = choose|j: Machine| #[trigger]
            reaches(p, m, limit, 0, j) && may_begin(j, limit, 0) && widest(p, j) && step(p, j).0
                == a;
        let n = choose|n: nat| #[trigger] steps(p, m, limit, 0, n) == Some(j);
        lemma_steps(p, m, limit, 0, n);
        lemma_steps_feed(p, m, limit, 0, n, more);
        lemma_step(p, j, more);
        assert(reaches(p, m.feed(more), limit, 0, j.feed(more)));
    }
}

/// What holds of the last byte for a decoder that goes on from `b` holds for one
/// that went the whole way.
pub proof fn lemma_tight_chain(p: Props, m: Machine, limit: Option<nat>, b: Machine, a: Machine)
    requires
        p.wf(),
        m.wf(p),
        arrives(p, m, limit, b),
        tight(p, b, limit, a),
    ensures
        tight(p, m, limit, a),
{
    reveal(tight);
    if settled(a) != a {
        let k = choose|j: Machine| #[trigger]
            reaches(p, b, limit, 0, j) && may_begin(j, limit, 0) && widest(p, j) && step(p, j).0
                == a;
        let j = lemma_reach_chain(p, m, limit, b, k);
        let n = choose|n: nat| #[trigger] steps(p, m, limit, 0, n) == Some(j);
        lemma_steps(p, m, limit, 0, n);
        lemma_step(p, j, Seq::empty());
        lemma_settled(p, j);
        assert(reaches(p, m, limit, 0, j));
    }
}

/// What holds of the last byte does not need what was left alone.
pub proof fn lemma_tight_exact(
    p: Props,
    m: Machine,
    limit: Option<nat>,
    a: Machine,
    more: Seq<u8>,
)
    requires
        p.wf(),
        m.wf(p),
        m.coding.lack == 0,
        a.coding.lack == 0,
        tight(p, m.feed(more), limit, a.feed(more)),
    ensures
        tight(p, m, limit, a),
{
    reveal(tight);
    let b = a.feed(more);
    if settled(b) == b {
        assert(normalize(b.coding).range == b.coding.range);
        assert(settled(a) == a);
    } else {
        let j = choose|j: Machine| #[trigger]
            reaches(p, m.feed(more), limit, 0, j) && may_begin(j, limit, 0) && widest(p, j) && step(
                p,
                j,
            ).0 == b;
        let n = choose|n: nat| #[trigger] steps(p, m.feed(more), limit, 0, n) == Some(j);
        lemma_steps(p, m.feed(more), limit, 0, n);
        lemma_step(p, j, Seq::empty());
        lemma_steps_exact(p, m, limit, 0, n, more);
        let k = steps(p, m, limit, 0, n)->0;
        assert(reaches(p, m, limit, 0, k));
        lemma_steps(p, m, limit, 0, n);
        lemma_step_exact(p, k, more);
        lemma_step(p, k, more);
        lemma_unfeed(a, step(p, k).0, more);
    }
}

/// A decoder that begins nothing stands where it is.
pub proof fn lemma_cautious_here(p: Props, m: Machine, limit: Option<nat>, floor: nat)
    ensures
        cautious(p, m, limit, floor, false, m),
{
    reveal(cautious);
    assert(steps(p, m, limit, floor, 0) == Some(m));
    assert(reaches(p, m, limit, floor, m));
}

/// Which symbol a cautious decoder stands behind.
proof fn lemma_cautious_place(
    p: Props,
    m: Machine,
    limit: Option<nat>,
    floor: nat,
    stopped: bool,
    a: Machine,
) -> (k: Machine)
    requires
        cautious(p, m, limit, floor, stopped, a),
    ensures
        reaches(p, m, limit, floor, k),
        stopped ==> {
            &&& may_begin(k, limit, floor)
            &&& step(p, k).1 == Outcome::EndMarker
            &&& a == step(p, k).0 || a == settled(step(p, k).0)
        },
        !stopped ==> a == k || a == settled(k),
{
    reveal(cautious);
    choose|k: Machine| #[trigger] reaches(p, m, limit, floor, k) && if stopped {
        &&& may_begin(k, limit, floor)
        &&& step(p, k).1 == Outcome::EndMarker
        &&& a == step(p, k).0 || a == settled(step(p, k).0)
    } else {
        a == k || a == settled(k)
    }
}

/// More bytes to come make no symbol less safe to begin.
pub proof fn lemma_cautious_feed(
    p: Props,
    m: Machine,
    limit: Option<nat>,
    floor: nat,
    stopped: bool,
    a: Machine,
    more: Seq<u8>,
)
    requires
        p.wf(),
        m.wf(p),
        a.coding.lack == 0,
        cautious(p, m, limit, floor, stopped, a),
    ensures
        cautious(p, m.feed(more), limit, floor, stopped, a.feed(more)),
{
    let k = lemma_cautious_place(p, m, limit, floor, stopped, a);
    reveal(cautious);
    let n = choose|n: nat| #[trigger] steps(p, m, limit, floor, n) == Some(k);
    lemma_steps(p, m, limit, floor, n);
    lemma_settled(p, k);
    lemma_step(p, k, more);
    lemma_settled(p, step(p, k).0);
    lemma_steps_feed(p, m, limit, floor, n, more);
    lemma_settled_feed(k, more);
    lemma_settled_feed(step(p, k).0, more);
    assert(reaches(p, m.feed(more), limit, floor, k.feed(more)));
}

/// Where a decoder that begins no symbol with fewer than `floor` bytes goes on
/// from a place that it came to like that.
proof fn lemma_cautious_reach(
    p: Props,
    m: Machine,
    limit: Option<nat>,
    floor: nat,
    a: Machine,
    k: Machine,
) -> (j: Machine)
    requires
        p.wf(),
        m.wf(p),
        cautious(p, m, limit, floor, false, a),
        reaches(p, a, limit, floor, k),
    ensures
        reaches(p, m, limit, floor, j),
        j == k || k == settled(j) && settled(k) == k,
        j.hist == k.hist,
        j.coding.input.len() >= k.coding.input.len(),
        j.coding.lack <= k.coding.lack,
        step(p, j) == step(p, k),
{
    let i = lemma_cautious_place(p, m, limit, floor, false, a);
    let n = choose|n: nat| #[trigger] steps(p, m, limit, floor, n) == Some(i);
    let n2 = choose|n: nat| #[trigger] steps(p, a, limit, floor, n) == Some(k);
    lemma_steps(p, m, limit, floor, n);
    lemma_settled(p, i);
    if n2 == 0 {
        assert(k == a);
        i
    } else {
        if a != i {
            lemma_steps_settled(p, i, limit, floor, n2);
        }
        lemma_steps_chain(p, m, limit, floor, n, n2);
        assert(reaches(p, m, limit, floor, k));
        k
    }
}

/// A decoder that begins no symbol with fewer than `floor` bytes may do so in two
/// stretches.
pub proof fn lemma_cautious_chain(
    p: Props,
    m: Machine,
    limit: Option<nat>,
    floor: nat,
    a: Machine,
    stopped: bool,
    b: Machine,
)
    requires
        p.wf(),
        m.wf(p),
        cautious(p, m, limit, floor, false, a),
        cautious(p, a, limit, floor, stopped, b),
    ensures
        cautious(p, m, limit, floor, stopped, b),
{
    let k = lemma_cautious_place(p, a, limit, floor, stopped, b);
    reveal(cautious);
    let j = lemma_cautious_reach(p, m, limit, floor, a, k);
    assert(reaches(p, m, limit, floor, j));
    assert(settled(j) == settled(k));
}

/// The same, where the second stretch comes to a fault.
pub proof fn lemma_fault_before_chain(
    p: Props,
    m: Machine,
    limit: Option<nat>,
    floor: nat,
    allow_end_marker: bool,
    last: bool,
    a: Machine,
    e: Error,
)
    requires
        p.wf(),
        m.wf(p),
        cautious(p, m, limit, floor, false, a),
        fault_before(p, a, limit, floor, allow_end_marker, last, e),
    ensures
        fault_before(p, m, limit, floor, allow_end_marker, last, e),
{
    reveal(fault_before);
    let k = choose|k: Machine| #[trigger]
        reaches(p, a, limit, floor, k) && faulty(p, k, limit, allow_end_marker, last, e) && (enough(
            k,
            limit,
        ) || k.coding.input.len() >= floor);
    let j = lemma_cautious_reach(p, m, limit, floor, a, k);
    let n = choose|n: nat| #[trigger] steps(p, m, limit, floor, n) == Some(j);
    lemma_steps(p, m, limit, floor, n);
    lemma_step(p, j, Seq::empty());
    lemma_settled(p, j);
    assert(reaches(p, m, limit, floor, j));
    assert(faulty(p, j, limit, allow_end_marker, last, e));
}

/// A fault stays one, whatever follows.
pub proof fn lemma_fault_before_feed(
    p: Props,
    m: Machine,
    limit: Option<nat>,
    floor: nat,
    allow_end_marker: bool,
    e: Error,
    more: Seq<u8>,
)
    requires
        p.wf(),
        m.wf(p),
        fault_before(p, m, limit, floor, allow_end_marker, false, e),
    ensures
        fault_before(p, m.feed(more), limit, floor, allow_end_marker, false, e),
{
    reveal(fault_before);
    let k = choose|k: Machine| #[trigger]
        reaches(p, m, limit, floor, k) && faulty(p, k, limit, allow_end_marker, false, e) && (enough(
            k,
            limit,
        ) || k.coding.input.len() >= floor);
    let n = choose|n: nat| #[trigger] steps(p, m, limit, floor, n) == Some(k);
    lemma_steps(p, m, limit, floor, n);
    lemma_steps_feed(p, m, limit, floor, n, more);
    lemma_step(p, k, more);
    lemma_settled_feed(step(p, k).0, more);
    assert(reaches(p, m.feed(more), limit, floor, k.feed(more)));
    assert(faulty(p, k.feed(more), limit, allow_end_marker, false, e));
}

/// A fault that is found with care is a fault.
pub proof fn lemma_fault_before(
    p: Props,
    m: Machine,
    limit: Option<nat>,
    floor: nat,
    allow_end_marker: bool,
    last: bool,
    e: Error,
)
    requires
        fault_before(p, m, limit, floor, allow_end_marker, last, e),
    ensures
        fault(p, m, limit, allow_end_marker, last, e),
{
    reveal(fault_before);
    reveal(fault);
    let k = choose|k: Machine| #[trigger]
        reaches(p, m, limit, floor, k) && faulty(p, k, limit, allow_end_marker, last, e) && (enough(
            k,
            limit,
        ) || k.coding.input.len() >= floor);
    let n = choose|n: nat| #[trigger] steps(p, m, limit, floor, n) == Some(k);
    lemma_steps_looser(p, m, limit, floor, n, limit, 0);
    assert(reaches(p, m, limit, 0, k));
}

/// Somewhere along the payload of `m`, or at its end.
pub open spec fn placed(p: Props, m: Machine, limit: Option<nat>, end: bool, n: Machine) -> bool {
    ||| arrives(p, m, limit, n) && (end ==> limit is Some && n.hist.len() == limit->0)
    ||| end && marked(p, m, limit, n)
}

/// The payload goes no further than `k`, for better or worse.
pub open spec fn halts(p: Props, k: Machine, limit: Option<nat>) -> bool {
    ||| !may_begin(k, limit, 0)
    ||| step(p, k).1 != Outcome::Done
    ||| step(p, k).0.coding.lack > 0
}

/// A payload goes no further than one place, and no other place lies behind it.
pub proof fn lemma_one_halt(p: Props, m: Machine, limit: Option<nat>, k: Machine, j: Machine)
    requires
        p.wf(),
        m.wf(p),
        reaches(p, m, limit, 0, k),
        k.coding.lack == 0,
        halts(p, k, limit),
        reaches(p, m, limit, 0, j),
        j.coding.lack == 0,
    ensures
        k.wf(p),
        j.wf(p),
        halts(p, j, limit) ==> j == k,
        !halts(p, j, limit) ==> settled(j).coding.lack == 0,
        j.coding.input.len() >= k.coding.input.len(),
{
    let a = choose|a: nat| #[trigger] steps(p, m, limit, 0, a) == Some(k);
    let b = choose|b: nat| #[trigger] steps(p, m, limit, 0, b) == Some(j);
    lemma_steps(p, m, limit, 0, a);
    lemma_steps(p, m, limit, 0, b);
    if a < b {
        lemma_one_chain(p, m, limit, a, b);
    } else if b < a {
        lemma_one_chain(p, m, limit, b, a);
        lemma_steps_chain(p, m, limit, 0, b, (a - b) as nat);
        lemma_steps(p, j, limit, 0, (a - b) as nat);
    }
    if !halts(p, j, limit) {
        lemma_settled(p, j);
        assert(settled(j).wf(p));
        lemma_step(p, settled(j), Seq::empty());
    }
}

/// Where a payload ends is where it halts. A decoder there stands at that place,
/// or has one more byte taken in.
pub proof fn lemma_end_halts(p: Props, m: Machine, limit: Option<nat>, n: Machine) -> (k: Machine)
    requires
        p.wf(),
        m.wf(p),
        placed(p, m, limit, true, n),
    ensures
        reaches(p, m, limit, 0, k),
        k.coding.lack == 0,
        halts(p, k, limit),
        k.wf(p),
        n.coding.lack == 0,
        enough(k, limit) ==> k.hist.len() == limit->0 && (n == k || n == settled(k)),
        !enough(k, limit) ==> {
            let z = step(p, k).0;
            &&& marked(p, m, limit, n)
            &&& may_begin(k, limit, 0)
            &&& step(p, k).1 == Outcome::EndMarker
            &&& z.coding.lack == 0
            &&& n == z || n == settled(z)
        },
{
    reveal(arrives);
    reveal(marked);
    if arrives(p, m, limit, n) && limit is Some && n.hist.len() == limit->0 {
        let k = choose|k: Machine| #[trigger]
            reaches(p, m, limit, 0, k) && k.coding.lack == 0 && (n == k || n == settled(k));
        let c = choose|c: nat| #[trigger] steps(p, m, limit, 0, c) == Some(k);
        lemma_steps(p, m, limit, 0, c);
        k
    } else {
        let k = choose|k: Machine| #[trigger]
            reaches(p, m, limit, 0, k) && may_begin(k, limit, 0) && step(p, k).1
                == Outcome::EndMarker && step(p, k).0.coding.lack == 0 && (n == step(p, k).0 || n
                == settled(step(p, k).0));
        let c = choose|c: nat| #[trigger] steps(p, m, limit, 0, c) == Some(k);
        lemma_steps(p, m, limit, 0, c);
        k
    }
}

/// A payload that ends does not run out of bytes.
pub proof fn lemma_ended_not_starved(p: Props, m: Machine, limit: Option<nat>, n: Machine)
    requires
        p.wf(),
        m.wf(p),
        placed(p, m, limit, true, n),
    ensures
        !starved(p, m, limit),
{
    reveal(starved);
    let k = lemma_end_halts(p, m, limit, n);
    assert forall|j: Machine| #[trigger] reaches(p, m, limit, 0, j) implies !(may_begin(j, limit, 0)
        && step(p, j).0.coding.lack > 0) by {
        if may_begin(j, limit, 0) && step(p, j).0.coding.lack > 0 {
            lemma_one_halt(p, m, limit, k, j);
        }
    }
}

/// A payload that comes to a fault does not run out of bytes.
pub proof fn lemma_fault_not_starved(
    p: Props,
    m: Machine,
    limit: Option<nat>,
    allow_end_marker: bool,
    last: bool,
    e: Error,
)
    requires
        p.wf(),
        m.wf(p),
        fault(p, m, limit, allow_end_marker, last, e),
    ensures
        !starved(p, m, limit),
{
    reveal(fault);
    reveal(starved);
    let k = choose|k: Machine| #[trigger]
        reaches(p, m, limit, 0, k) && faulty(p, k, limit, allow_end_marker, last, e);
    assert forall|j: Machine| #[trigger] reaches(p, m, limit, 0, j) implies !(may_begin(j, limit, 0)
        && step(p, j).0.coding.lack > 0) by {
        if may_begin(j, limit, 0) && step(p, j).0.coding.lack > 0 {
            lemma_one_halt(p, m, limit, k, j);
        }
    }
}

/// A fault is one also where nothing follows.
pub proof fn lemma_fault_last(
    p: Props,
    m: Machine,
    limit: Option<nat>,
    allow_end_marker: bool,
    last: bool,
    e: Error,
)
    requires
        fault(p, m, limit, allow_end_marker, false, e),
    ensures
        fault(p, m, limit, allow_end_marker, last, e),
{
    reveal(fault);
    let k = choose|k: Machine| #[trigger]
        reaches(p, m, limit, 0, k) && faulty(p, k, limit, allow_end_marker, false, e);
    assert(faulty(p, k, limit, allow_end_marker, last, e));
}

} // verus!
