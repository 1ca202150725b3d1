//! What holds of streams as a whole.

use vstd::prelude::*;

use crate::coding::normalize;
use crate::decoder::{decoded, lemma_run_is_the_loop};
use crate::engine::{lemma_stands_feed, IN_REQUIRED, RC_INIT_SIZE};
use crate::error::Error;
use crate::exactness::lemma_step_exact;
use crate::filter::{applied, lemma_settled_stable, unsettled, FilterConfig};
use crate::format::{
    data, lemma_first_feed, lemma_first_wf, lemma_refused_more, lemma_setup_stable, refused,
    Format, Setup,
};
use crate::input::{Read, ReadError};
use crate::locality::lemma_step;
use crate::progress::{
    arrives, enough, fault, faulty, lemma_end_halts, lemma_one_chain, lemma_one_halt,
    lemma_settled, lemma_steps, lemma_steps_feed, lemma_tight_feed, looped, marked, may_begin,
    placed, reaches, settled, short, starved, steps, tight, widest,
};
use crate::reader::{
    read_at, read_soundly, read_to, unopened_for, unread_for, unreadable, ReaderView,
};
use crate::stream::{
    caught_up, caught_up_at, complete, complete_at, sound, sound_at, StreamView,
};
use crate::symbol::{step, Machine, Outcome, Props};

verus! {

/// A decoder that stands at `n` is behind a number of symbols, and behind all
/// of them at the end.
proof fn lemma_place(p: Props, m: Machine, limit: Option<nat>, end: bool, n: Machine) -> (c: nat)
    requires
        p.wf(),
        m.wf(p),
        placed(p, m, limit, end, n),
    ensures
        steps(p, m, limit, 0, c) is Some,
        n.hist == (steps(p, m, limit, 0, c)->0).hist,
        m.hist.is_prefix_of(n.hist),
        end ==> last(p, steps(p, m, limit, 0, c)->0, limit),
{
    reveal(arrives);
    reveal(marked);
    if arrives(p, m, limit, n) && (!end || limit is Some && n.hist.len() == limit->0) {
        let k = choose|k: Machine| #[trigger]
            reaches(p, m, limit, 0, k) && k.coding.lack == 0 && (n == k || n == settled(k));
        let c = choose|c: nat| #[trigger] steps(p, m, limit, 0, c) == Some(k);
        lemma_steps(p, m, limit, 0, c);
        c
    } else {
        let k = choose|k: Machine| #[trigger]
            reaches(p, m, limit, 0, k) && may_begin(k, limit, 0) && step(p, k).1
                == Outcome::EndMarker && step(p, k).0.coding.lack == 0 && (n == step(p, k).0 || n
                == settled(step(p, k).0));
        let c = choose|c: nat| #[trigger] steps(p, m, limit, 0, c) == Some(k);
        lemma_steps(p, m, limit, 0, c);
        lemma_step(p, k, Seq::empty());
        c
    }
}

/// No symbol follows that could be carried out.
spec fn last(p: Props, k: Machine, limit: Option<nat>) -> bool {
    !may_begin(k, limit, 0) || step(p, k).1 != Outcome::Done
}

/// Where a stream that is complete stands.
pub proof fn lemma_complete_place(v: StreamView) -> (n: Machine)
    requires
        complete(v),
    ensures
        v.format.stands(v.fed, true, n),
        complete_at(v, n),
{
    reveal(complete);
    choose|n: Machine| #[trigger] v.format.stands(v.fed, true, n) && complete_at(v, n)
}

/// Where a stream stands that has handed something out, and what it was handed
/// out of.
pub proof fn lemma_sound_place(v: StreamView) -> (r: (Machine, bool, Seq<u8>))
    requires
        sound(v),
        v.out.len() > 0,
    ensures
        v.format.stands(v.fed, r.1, r.0),
        sound_at(v, r.0, r.1, r.2),
{
    choose|n: Machine, end: bool, raw: Seq<u8>|
        #![trigger v.format.stands(v.fed, end, n), applied(v.filter, raw)]
        v.format.stands(v.fed, end, n) && sound_at(v, n, end, raw)
}

/// Where a reader stands.
pub proof fn lemma_read_place<R: Read>(v: ReaderView<R>) -> (n: Machine)
    requires
        read_soundly(v),
    ensures
        read_to(v.format, v.all, v.ended, n),
        read_at(v, n),
{
    choose|n: Machine| #[trigger] read_to(v.format, v.all, v.ended, n) && read_at(v, n)
}

/// What a run of the decoder comes to is what decoding one symbol after the other
/// comes to: the same probabilities, state and distances, the same output, and the
/// same coder over the same input, with the byte taken in that the next bit would
/// take in first where the output is full and the reader says so.
pub proof fn lemma_decode_is_the_loop(
    p: Props,
    m: Machine,
    limit: nat,
    floor: nat,
    tail: int,
    n: Machine,
    end_marker: bool,
    ok: bool,
)
    requires
        p.wf(),
        m.wf(p),
        decoded(p, m, false, Some(limit), floor, tail, n, end_marker, ok),
        ok ==> !may_begin(n, Some(limit), floor),
    ensures
        ({
            let (k, outcome) = looped(p, m, limit, floor);
            &&& ok ==> {
                &&& outcome == Outcome::Done
                &&& n == (if enough(k, Some(limit)) && k.coding.input.len() > tail {
                    settled(k)
                } else {
                    k
                })
            }
            &&& !ok ==> {
                &&& outcome == (if end_marker {
                    Outcome::EndMarker
                } else {
                    Outcome::Overflow
                })
                &&& n == k
            }
        }),
{
    reveal(decoded);
    if ok {
        let k = choose|k: Machine| #[trigger]
            reaches(p, m, Some(limit), floor, k) && n == (Machine {
                coding: if enough(k, Some(limit)) && k.coding.input.len() > tail {
                    normalize(k.coding)
                } else {
                    k.coding
                },
                ..k
            });
        lemma_run_is_the_loop(p, m, limit, floor, k, end_marker);
    } else {
        lemma_run_is_the_loop(p, m, limit, floor, n, end_marker);
    }
}

/// However a decoder came to stand where it does, the data is the same: of two
/// that were fed the same bytes, the data of one is how the data of the other
/// begins. At the end there is no more of it.
pub proof fn lemma_data_agrees(
    f: Format,
    x: Seq<u8>,
    end1: bool,
    n1: Machine,
    end2: bool,
    n2: Machine,
)
    requires
        f.wf(),
        f.stands(x, end1, n1),
        f.stands(x, end2, n2),
    ensures
        f.setup(x)->Ok_0.preset.is_prefix_of(n1.hist),
        n1.hist.is_prefix_of(n2.hist) || n2.hist.is_prefix_of(n1.hist),
        end1 ==> n2.hist.is_prefix_of(n1.hist),
        end1 && end2 ==> n1.hist == n2.hist,
{
    let s = f.setup(x)->Ok_0;
    let m = f.first(x);
    lemma_first_wf(f, x);
    let a = lemma_place(s.props(), m, s.limit(), end1, n1);
    let b = lemma_place(s.props(), m, s.limit(), end2, n2);
    if a <= b {
        lemma_one_chain(s.props(), m, s.limit(), a, b);
    } else {
        lemma_one_chain(s.props(), m, s.limit(), b, a);
    }
}

/// What was decoded stays decoded, whatever follows.
pub proof fn lemma_stands_more(f: Format, x: Seq<u8>, more: Seq<u8>, end: bool, n: Machine)
    requires
        f.wf(),
        f.stands(x, end, n),
    ensures
        f.stands(x + more, end, n.feed(more)),
{
    let s = f.setup(x)->Ok_0;
    lemma_first_wf(f, x);
    lemma_first_feed(f, x, more);
    lemma_stands_feed(s.props(), f.first(x), s.limit(), s.allow_end_marker(), end, n, more);
}

proof fn lemma_prefix_chain<A>(a: Seq<A>, b: Seq<A>, c: Seq<A>)
    requires
        a.is_prefix_of(b),
        b.is_prefix_of(c),
    ensures
        a.is_prefix_of(c),
{
    assert(a =~= c.subrange(0, a.len() as int));
}

/// Of two beginnings of one sequence, one is how the other begins.
proof fn lemma_prefixes_agree<A>(a: Seq<A>, b: Seq<A>, c: Seq<A>)
    requires
        a.is_prefix_of(c),
        b.is_prefix_of(c),
    ensures
        a.len() <= b.len() ==> a.is_prefix_of(b),
{
    if a.len() <= b.len() {
        assert(a =~= b.subrange(0, a.len() as int));
    }
}

/// What one filtered beginning of the data settles, a longer one settles in
/// the same way.
proof fn lemma_filtered_agrees(
    filter: Option<FilterConfig>,
    raw: Seq<u8>,
    longer: Seq<u8>,
    out: Seq<u8>,
)
    requires
        raw.is_prefix_of(longer),
        out.is_prefix_of(applied(filter, raw)),
        out.len() + unsettled(filter, raw.len()) <= raw.len() || raw == longer,
    ensures
        out.is_prefix_of(applied(filter, longer)),
{
    let more = longer.skip(raw.len() as int);
    assert(raw + more =~= longer);
    lemma_settled_stable(filter, raw, more);
    lemma_settled_stable(filter, longer, Seq::empty());
    if raw != longer {
        let n = raw.len() - unsettled(filter, raw.len());
        let b = applied(filter, longer).take(n);
        assert(b == applied(filter, raw).take(n));
        assert forall|i: int| 0 <= i < out.len() implies out[i] == applied(filter, longer)[i] by {
            assert(b[i] == applied(filter, longer)[i]);
            assert(b[i] == applied(filter, raw)[i]);
        }
        assert(out =~= applied(filter, longer).subrange(0, out.len() as int));
    }
}

/// However a stream is cut into calls, what comes out is the same: of two
/// streams opened alike, one of which was fed what the other was and perhaps
/// `more`, the output of one is how the output of the other begins.
pub proof fn lemma_outputs_agree(v: StreamView, w: StreamView, more: Seq<u8>)
    requires
        v.format.wf(),
        v.format == w.format,
        v.filter == w.filter,
        w.fed == v.fed + more,
        sound(v),
        sound(w),
    ensures
        v.out.is_prefix_of(w.out) || w.out.is_prefix_of(v.out),
{
    let f = v.format;
    if v.out.len() == 0 {
        assert(v.out =~= w.out.subrange(0, 0));
    } else if w.out.len() == 0 {
        assert(w.out =~= v.out.subrange(0, 0));
    } else {
        let (n1, end1, raw1) = lemma_sound_place(v);
        let (n2, end2, raw2) = lemma_sound_place(w);
        let s = f.setup(v.fed)->Ok_0;
        lemma_setup_stable(f, v.fed, more);
        lemma_stands_more(f, v.fed, more, end1, n1);
        lemma_data_agrees(f, w.fed, end1, n1.feed(more), end2, n2);
        lemma_data_agrees(f, w.fed, end2, n2, end1, n1.feed(more));
        let d1 = data(s, n1);
        let d2 = data(s, n2);
        if n1.hist.is_prefix_of(n2.hist) {
            lemma_raw_agree(v.filter, n1.hist, n2.hist, s, raw1, raw2, v.out, w.out);
        } else {
            lemma_raw_agree(v.filter, n2.hist, n1.hist, s, raw2, raw1, w.out, v.out);
        }
    }
}

proof fn lemma_raw_agree(
    filter: Option<FilterConfig>,
    hist1: Seq<u8>,
    hist2: Seq<u8>,
    s: Setup,
    raw1: Seq<u8>,
    raw2: Seq<u8>,
    out1: Seq<u8>,
    out2: Seq<u8>,
)
    requires
        hist1.is_prefix_of(hist2),
        raw1.is_prefix_of(hist1.skip(s.preset.len() as int)),
        raw2.is_prefix_of(hist2.skip(s.preset.len() as int)),
        out1.is_prefix_of(applied(filter, raw1)),
        out2.is_prefix_of(applied(filter, raw2)),
        out1.len() + unsettled(filter, raw1.len()) <= raw1.len() || raw2.len() <= raw1.len(),
        out2.len() + unsettled(filter, raw2.len()) <= raw2.len() || raw1.len() <= raw2.len(),
        s.preset.len() <= hist1.len(),
    ensures
        out1.is_prefix_of(out2) || out2.is_prefix_of(out1),
{
    let h = s.preset.len() as int;
    assert(hist1.skip(h).is_prefix_of(hist2.skip(h))) by {
        assert(hist1.skip(h) =~= hist2.skip(h).subrange(0, hist1.skip(h).len() as int));
    }
    lemma_prefix_chain(raw1, hist1.skip(h), hist2.skip(h));
    lemma_prefixes_agree(raw1, raw2, hist2.skip(h));
    lemma_prefixes_agree(raw2, raw1, hist2.skip(h));
    if raw1.len() <= raw2.len() {
        if raw1.len() == raw2.len() {
            assert(raw1 =~= raw2);
        }
        lemma_filtered_agrees(filter, raw1, raw2, out1);
        lemma_prefixes_agree(out1, out2, applied(filter, raw2));
        lemma_prefixes_agree(out2, out1, applied(filter, raw2));
    } else {
        lemma_filtered_agrees(filter, raw2, raw1, out2);
        lemma_prefixes_agree(out1, out2, applied(filter, raw1));
        lemma_prefixes_agree(out2, out1, applied(filter, raw1));
    }
}

/// No more is handed out than the size of the data allows.
pub proof fn lemma_out_within_size(v: StreamView)
    requires
        sound(v),
    ensures
        v.out.len() > 0 ==> v.format.setup(v.fed)->Ok_0.holds(v.out.len()),
        v.out.len() > 0 && v.format.setup(v.fed)->Ok_0.size < 0x8000_0000_0000_0000 ==> v.out.len()
            <= v.format.setup(v.fed)->Ok_0.size,
{
    if v.out.len() > 0 {
        let (n, end, raw) = lemma_sound_place(v);
        lemma_settled_stable(v.filter, raw, Seq::empty());
    }
}

/// A stream that asks for more has held back little: fewer than twenty bytes of its
/// input, no more than one longest copy of 273 bytes, and three bytes of code. Where
/// the size is known, some of the data is still to come.
pub proof fn lemma_little_is_held_back(v: StreamView)
    requires
        caught_up(v),
        v.fed.len() >= v.format.header_len() + 5,
    ensures
        exists|n: Machine| #[trigger]
            v.format.stands(v.fed, false, n) && n.coding.input.len() < 20 && data(
                v.format.setup(v.fed)->Ok_0,
                n,
            ).len() <= v.out.len() + 273 + 3,
        v.format.setup(v.fed)->Ok_0.size < 0x8000_0000_0000_0000 ==> v.out.len()
            < v.format.setup(v.fed)->Ok_0.size,
{
    reveal(caught_up);
    let (n, raw) = choose|n: Machine, raw: Seq<u8>|
        #![trigger v.format.stands(v.fed, false, n), applied(v.filter, raw)]
        v.format.stands(v.fed, false, n) && caught_up_at(v, n, raw);
    lemma_settled_stable(v.filter, raw, Seq::empty());
}

/// Two streams opened alike that are complete, one of which was fed what the
/// other was and perhaps `more`, have the same output.
pub proof fn lemma_complete_agrees(v: StreamView, w: StreamView, more: Seq<u8>)
    requires
        v.format.wf(),
        v.format == w.format,
        v.filter == w.filter,
        w.fed == v.fed + more,
        complete(v),
        complete(w),
    ensures
        v.out == w.out,
{
    let f = v.format;
    let n1 = lemma_complete_place(v);
    let n2 = lemma_complete_place(w);
    lemma_setup_stable(f, v.fed, more);
    lemma_stands_more(f, v.fed, more, true, n1);
    lemma_data_agrees(f, w.fed, true, n1.feed(more), true, n2);
}

/// A stream that is whole and as it should be: it comes to its size, or to an
/// end marker with the coder at zero, with the byte taken in that brings it back
/// above its least range, and also without where a decoder may be without it.
pub open spec fn well_formed(f: Format, x: Seq<u8>) -> bool {
    let s = f.setup(x)->Ok_0;
    &&& f.opened(x)
    &&& exists|k: Machine| #[trigger]
        reaches(s.props(), f.first(x), s.limit(), 0, k) && k.coding.lack == 0 && (if s.limit() is Some {
            k.hist.len() == s.limit()->0
        } else {
            let (n, outcome) = step(s.props(), k);
            &&& s.allow_end_marker()
            &&& outcome == Outcome::EndMarker
            &&& n.coding.lack == 0
            &&& settled(n).coding.lack == 0 ==> settled(n).coding.code == 0
            &&& widest(s.props(), k) || n.coding.input.len() == 0 ==> n.coding.code == 0
        })
}

/// A stream that is as it should be is not refused when it is whole, with
/// nothing or anything to follow.
proof fn lemma_whole_not_refused(f: Format, x: Seq<u8>, finish: bool, e: Error)
    requires
        f.wf(),
        well_formed(f, x),
    ensures
        !refused(f, x, finish, e),
{
    reveal(fault);
    reveal(starved);
    let s = f.setup(x)->Ok_0;
    let p = s.props();
    let m = f.first(x);
    let limit = s.limit();
    lemma_first_wf(f, x);
    let k = choose|k: Machine| #[trigger]
        reaches(p, m, limit, 0, k) && k.coding.lack == 0 && (if limit is Some {
            k.hist.len() == limit->0
        } else {
            let (n, outcome) = step(p, k);
            &&& s.allow_end_marker()
            &&& outcome == Outcome::EndMarker
            &&& n.coding.lack == 0
            &&& settled(n).coding.lack == 0 ==> settled(n).coding.code == 0
            &&& widest(p, k) || n.coding.input.len() == 0 ==> n.coding.code == 0
        });
    let a = choose|a: nat| #[trigger] steps(p, m, limit, 0, a) == Some(k);
    assert forall|j: Machine| #[trigger] reaches(p, m, limit, 0, j) implies !faulty(
        p,
        j,
        limit,
        s.allow_end_marker(),
        finish,
        e,
    ) && !(may_begin(j, limit, 0) && step(p, j).0.coding.lack > 0) by {
        let b = choose|b: nat| #[trigger] steps(p, m, limit, 0, b) == Some(j);
        if b <= a {
            lemma_one_chain(p, m, limit, b, a);
        } else {
            lemma_one_chain(p, m, limit, a, b);
        }
    }
}

/// A stream that is as it should be is not refused however much of it is there:
/// not while more can follow, and not at its end.
pub proof fn lemma_not_refused(f: Format, x: Seq<u8>, more: Seq<u8>, e: Error)
    requires
        f.wf(),
        well_formed(f, x + more),
    ensures
        !refused(f, x, false, e),
        !refused(f, x + more, true, e),
{
    lemma_whole_not_refused(f, x + more, true, e);
    lemma_whole_not_refused(f, x + more, false, e);
    if refused(f, x, false, e) {
        lemma_refused_more(f, x, more, false, e);
    }
}

/// What a symbol leaves of the input is how the input ends.
proof fn lemma_step_suffix(p: Props, m: Machine)
    requires
        p.wf(),
        m.wf(p),
        step(p, m).0.coding.lack == m.coding.lack,
    ensures
        ({
            let x = m.coding.input;
            let y = step(p, m).0.coding.input;
            y.len() <= x.len() && y == x.skip(x.len() - y.len())
        }),
{
    lemma_step(p, m, Seq::empty());
    let x = m.coding.input;
    let y = step(p, m).0.coding.input;
    let used = x.take(x.len() - y.len());
    let more = x.skip(x.len() - y.len());
    let short = Machine { coding: crate::coding::Coding { input: used, ..m.coding }, ..m };
    assert(used + more =~= x);
    assert(short.feed(more) =~= m);
    lemma_step_exact(p, short, more);
    lemma_step(p, short, more);
    let z = step(p, short).0.coding.input;
    assert(y == z + more);
    assert(z.len() == 0);
    assert(y =~= more);
}

proof fn lemma_steps_suffix(p: Props, m: Machine, limit: Option<nat>, c: nat)
    requires
        p.wf(),
        m.wf(p),
        m.coding.lack == 0,
        steps(p, m, limit, 0, c) is Some,
        (steps(p, m, limit, 0, c)->0).coding.lack == 0,
    ensures
        ({
            let x = m.coding.input;
            let y = (steps(p, m, limit, 0, c)->0).coding.input;
            y.len() <= x.len() && y == x.skip(x.len() - y.len())
        }),
    decreases c,
{
    let x = m.coding.input;
    if c == 0 {
        assert(x.skip(0) =~= x);
    } else {
        let k = steps(p, m, limit, 0, (c - 1) as nat)->0;
        lemma_steps(p, m, limit, 0, (c - 1) as nat);
        lemma_steps_suffix(p, m, limit, (c - 1) as nat);
        lemma_step_suffix(p, k);
        let y = k.coding.input;
        let z = step(p, k).0.coding.input;
        assert(x.skip(x.len() - y.len()).skip(y.len() - z.len()) =~= x.skip(x.len() - z.len()));
    }
}

/// What a decoder has not used is how the bytes end that it was given.
proof fn lemma_placed_suffix(f: Format, x: Seq<u8>, end: bool, n: Machine)
    requires
        f.wf(),
        f.opened(x),
        placed(f.setup(x)->Ok_0.props(), f.first(x), f.setup(x)->Ok_0.limit(), end, n),
    ensures
        n.coding.input.len() <= x.len(),
        n.coding.input == x.skip(x.len() - n.coding.input.len()),
{
    reveal(arrives);
    reveal(marked);
    let s = f.setup(x)->Ok_0;
    let p = s.props();
    let m = f.first(x);
    let limit = s.limit();
    lemma_first_wf(f, x);
    let h = f.header_len() + RC_INIT_SIZE;
    let i = m.coding.input;
    // The machine before the byte that may have been taken in ahead of time.
    let j = if arrives(p, m, limit, n) {
        let k = choose|k: Machine| #[trigger]
            reaches(p, m, limit, 0, k) && k.coding.lack == 0 && (n == k || n == settled(k));
        let c = choose|c: nat| #[trigger] steps(p, m, limit, 0, c) == Some(k);
        lemma_steps(p, m, limit, 0, c);
        lemma_steps_suffix(p, m, limit, c);
        k
    } else {
        let k = choose|k: Machine| #[trigger]
            reaches(p, m, limit, 0, k) && may_begin(k, limit, 0) && step(p, k).1
                == Outcome::EndMarker && step(p, k).0.coding.lack == 0 && (n == step(p, k).0 || n
                == settled(step(p, k).0));
        let c = choose|c: nat| #[trigger] steps(p, m, limit, 0, c) == Some(k);
        lemma_steps(p, m, limit, 0, c);
        lemma_steps_suffix(p, m, limit, c);
        lemma_step_suffix(p, k);
        let y = k.coding.input;
        let z = step(p, k).0.coding.input;
        assert(i.skip(i.len() - y.len()).skip(y.len() - z.len()) =~= i.skip(i.len() - z.len()));
        step(p, k).0
    };
    let y = j.coding.input;
    let z = n.coding.input;
    assert(y == i.skip(i.len() - y.len()));
    assert(z =~= i.skip(i.len() - z.len()));
    assert(i =~= x.skip(h as int));
    assert(x.skip(h as int).skip(i.len() - z.len()) =~= x.skip(x.len() - z.len()));
}

/// What a stream that is complete says it did not use is how the bytes end
/// that it was fed.
pub proof fn lemma_unused_is_the_rest(v: StreamView)
    requires
        v.format.wf(),
        complete(v),
    ensures
        v.unused.len() <= v.fed.len(),
        v.unused == v.fed.skip(v.fed.len() - v.unused.len()),
{
    let f = v.format;
    let n = lemma_complete_place(v);
    lemma_placed_suffix(f, v.fed, true, n);
}

/// What a reader has not used is how the bytes end that its source had.
pub proof fn lemma_reader_leaves_the_rest<R: Read>(v: ReaderView<R>)
    requires
        v.format.wf(),
        read_soundly(v),
    ensures
        v.rest.len() <= v.all.len(),
        v.rest == v.all.skip(v.all.len() - v.rest.len()),
{
    let f = v.format;
    let n = lemma_read_place(v);
    lemma_placed_suffix(f, v.all, v.ended, n);
}

/// A reader that has come to the end and a stream that is complete, opened
/// alike and with the stream fed how the bytes of the source begin, have the
/// same output.
pub proof fn lemma_reader_agrees<R: Read>(v: ReaderView<R>, w: StreamView, more: Seq<u8>)
    requires
        v.format.wf(),
        v.format == w.format,
        v.all == w.fed + more,
        w.filter is None,
        v.ended,
        read_soundly(v),
        complete(w),
    ensures
        v.out == w.out,
{
    let f = v.format;
    let s = f.setup(v.all)->Ok_0;
    let p = s.props();
    let m = f.first(v.all);
    let n1 = lemma_read_place(v);
    let n2 = lemma_complete_place(w);
    lemma_setup_stable(f, w.fed, more);
    lemma_stands_more(f, w.fed, more, true, n2);
    lemma_first_wf(f, v.all);
    let a = lemma_place(p, m, s.limit(), true, n1);
    let b = lemma_place(p, m, s.limit(), true, n2.feed(more));
    if a <= b {
        lemma_one_chain(p, m, s.limit(), a, b);
    } else {
        lemma_one_chain(p, m, s.limit(), b, a);
    }
}

/// The bytes that end a payload are all there, also the one that brings the
/// coder back above its least range.
pub open spec fn whole(f: Format, x: Seq<u8>) -> bool {
    let s = f.setup(x)->Ok_0;
    &&& f.opened(x)
    &&& exists|k: Machine| #[trigger]
        reaches(s.props(), f.first(x), s.limit(), 0, k) && k.coding.lack == 0 && (if s.limit() is Some {
            k.hist.len() == s.limit()->0 && settled(k).coding.lack == 0
        } else {
            let (n, outcome) = step(s.props(), k);
            &&& s.allow_end_marker()
            &&& outcome == Outcome::EndMarker
            &&& settled(n).coding.lack == 0
        })
}

pub proof fn lemma_whole_not_unreadable(f: Format, x: Seq<u8>, e: Error)
    requires
        f.wf(),
        whole(f, x),
    ensures
        !unreadable(f, x, e),
{
    reveal(fault);
    reveal(short);
    let s = f.setup(x)->Ok_0;
    let p = s.props();
    let m = f.first(x);
    let limit = s.limit();
    lemma_first_wf(f, x);
    let k = choose|k: Machine| #[trigger]
        reaches(p, m, limit, 0, k) && k.coding.lack == 0 && (if limit is Some {
            k.hist.len() == limit->0 && settled(k).coding.lack == 0
        } else {
            let (n, outcome) = step(p, k);
            &&& s.allow_end_marker()
            &&& outcome == Outcome::EndMarker
            &&& settled(n).coding.lack == 0
        });
    let a = choose|a: nat| #[trigger] steps(p, m, limit, 0, a) == Some(k);
    lemma_steps(p, m, limit, 0, a);
    lemma_step(p, k, Seq::empty());
    lemma_settled(p, step(p, k).0);
    if e != Error::NotTerminated {
        assert forall|j: Machine| #[trigger] reaches(p, m, limit, 0, j) && j.coding.lack == 0 implies {
            &&& !faulty(p, j, limit, s.allow_end_marker(), false, e)
            &&& !(may_begin(j, limit, 0) && step(p, j).0.coding.lack > 0)
            &&& settled(j).coding.lack == 0
            &&& !(may_begin(j, limit, 0) && step(p, j).1 == Outcome::EndMarker && settled(
                step(p, j).0,
            ).coding.lack > 0)
        } by {
            let b = choose|b: nat| #[trigger] steps(p, m, limit, 0, b) == Some(j);
            lemma_steps(p, m, limit, 0, b);
            lemma_settled(p, j);
            assert(settled(j).wf(p));
            lemma_step(p, settled(j), Seq::empty());
            if b <= a {
                lemma_one_chain(p, m, limit, b, a);
            } else {
                lemma_one_chain(p, m, limit, a, b);
            }
        }
        assert forall|j: Machine| #[trigger] reaches(p, m, limit, 0, j) implies !faulty(
            p,
            j,
            limit,
            s.allow_end_marker(),
            false,
            e,
        ) by {
            if j.coding.lack > 0 {
                assert(e != Error::EndNotFinished || !faulty(p, j, limit, s.allow_end_marker(), false, e));
            }
        }
    }
}

/// A reader of data that is whole does not fail, and nothing behind it matters:
/// where the source has handed it out and fails then, it has not been asked for
/// more.
pub proof fn lemma_whole_is_readable<E>(
    f: Format,
    x: Seq<u8>,
    failure: Option<E>,
    e: ReadError<E>,
)
    requires
        f.wf(),
        whole(f, x),
    ensures
        !unopened_for(f, x, failure, e),
        !unread_for(f, x, failure, e),
{
    match e {
        ReadError::Source(_) => {
            lemma_whole_not_unreadable(f, x, Error::UnexpectedEnd);
        },
        ReadError::Data(e) => {
            lemma_whole_not_unreadable(f, x, e);
        },
    }
}

/// There is one thing at most that is wrong with a stream: the error that a
/// decoder has for it does not depend on how it is cut into calls.
pub proof fn lemma_one_error(f: Format, x: Seq<u8>, finish: bool, e1: Error, e2: Error)
    requires
        f.wf(),
        refused(f, x, finish, e1),
        refused(f, x, finish, e2),
    ensures
        e1 == e2,
{
    if f.opened(x) {
        reveal(fault);
        reveal(starved);
        let s = f.setup(x)->Ok_0;
        let p = s.props();
        let m = f.first(x);
        let limit = s.limit();
        let allow = s.allow_end_marker();
        lemma_first_wf(f, x);
        let k = if e1 == Error::Truncated {
            choose|k: Machine| #[trigger]
                reaches(p, m, limit, 0, k) && may_begin(k, limit, 0) && step(p, k).0.coding.lack > 0
        } else {
            choose|k: Machine| #[trigger]
                reaches(p, m, limit, 0, k) && faulty(p, k, limit, allow, finish, e1)
        };
        let j = if e2 == Error::Truncated {
            choose|j: Machine| #[trigger]
                reaches(p, m, limit, 0, j) && may_begin(j, limit, 0) && step(p, j).0.coding.lack > 0
        } else {
            choose|j: Machine| #[trigger]
                reaches(p, m, limit, 0, j) && faulty(p, j, limit, allow, finish, e2)
        };
        lemma_one_halt(p, m, limit, k, j);
    }
}

/// A stream that is refused does not come to an end, and one that has come to
/// its end is not refused, whatever follows. One thing is left open, where an end
/// marker tells of the end: the byte that brings the coder back above its least
/// range makes a difference. It was not there where the caller said that nothing
/// follows, and it may not have been at hand where the marker takes in as many
/// bytes as a symbol can.
pub proof fn lemma_complete_not_refused(v: StreamView, more: Seq<u8>, finish: bool, e: Error)
    requires
        v.format.wf(),
        complete(v),
        e == Error::NotTerminated && v.format.setup(v.fed)->Ok_0.limit() is None ==> !v.cut
            && !ends_wide(v.format, v.fed + more),
    ensures
        !refused(v.format, v.fed + more, finish, e),
{
    let f = v.format;
    let x = v.fed + more;
    let n = lemma_complete_place(v);
    lemma_stands_more(f, v.fed, more, true, n);
    lemma_first_wf(f, x);
    let s = f.setup(x)->Ok_0;
    let p = s.props();
    let m = f.first(x);
    let limit = s.limit();
    let k = lemma_end_halts(p, m, limit, n.feed(more));
    if tight(p, f.first(v.fed), limit, n) {
        lemma_first_wf(f, v.fed);
        lemma_first_feed(f, v.fed, more);
        lemma_tight_feed(p, f.first(v.fed), limit, n, more);
    }
    reveal(fault);
    reveal(starved);
    reveal(tight);
    reveal(marked);
    lemma_step(p, k, Seq::empty());
    lemma_settled(p, step(p, k).0);
    assert forall|j: Machine| #[trigger] reaches(p, m, limit, 0, j) implies !faulty(
        p,
        j,
        limit,
        s.allow_end_marker(),
        finish,
        e,
    ) && !(may_begin(j, limit, 0) && step(p, j).0.coding.lack > 0) by {
        if j.coding.lack == 0 {
            lemma_one_halt(p, m, limit, k, j);
        }
    }
}

/// What is wrong with a stream is found: one that has caught up has nothing
/// wrong with it, but for its last bytes.
pub proof fn lemma_caught_up_not_refused(v: StreamView, x: Seq<u8>, y: Seq<u8>, e: Error)
    requires
        v.format.wf(),
        caught_up(v),
        v.fed == x + y,
        y.len() > IN_REQUIRED,
    ensures
        !refused(v.format, x, false, e),
{
    let f = v.format;
    if refused(f, x, false, e) {
        reveal(caught_up);
        let (n, raw) = choose|n: Machine, raw: Seq<u8>|
            #![trigger f.stands(v.fed, false, n), applied(v.filter, raw)]
            f.stands(v.fed, false, n) && caught_up_at(v, n, raw);
        if x.len() >= f.header_len() {
            lemma_setup_stable(f, x, y);
        }
        lemma_first_feed(f, x, y);
        lemma_first_wf(f, x);
        lemma_first_wf(f, v.fed);
        reveal(fault);
        reveal(arrives);
        let s = f.setup(x)->Ok_0;
        let p = s.props();
        let limit = s.limit();
        let allow = s.allow_end_marker();
        let m = f.first(x);
        let j = choose|j: Machine| #[trigger]
            reaches(p, m, limit, 0, j) && faulty(p, j, limit, allow, false, e);
        let b = choose|b: nat| #[trigger] steps(p, m, limit, 0, b) == Some(j);
        lemma_steps(p, m, limit, 0, b);
        lemma_steps_feed(p, m, limit, 0, b, y);
        lemma_step(p, j, y);
        let l = j.feed(y);
        assert(reaches(p, m.feed(y), limit, 0, l));
        let k = choose|k: Machine| #[trigger]
            reaches(p, m.feed(y), limit, 0, k) && k.coding.lack == 0 && (n == k || n == settled(k));
        lemma_one_halt(p, m.feed(y), limit, l, k);
    }
}

/// The payload of `m` ends with a symbol that takes in as many bytes as a symbol
/// can and leaves the coder below its least range.
pub open spec fn wide_end(p: Props, m: Machine, limit: Option<nat>) -> bool {
    exists|j: Machine| #[trigger]
        reaches(p, m, limit, 0, j) && may_begin(j, limit, 0) && widest(p, j) && placed(
            p,
            m,
            limit,
            true,
            step(p, j).0,
        ) && settled(step(p, j).0) != step(p, j).0
}

/// The last symbol of a stream takes in as many bytes as a symbol can, and leaves
/// the coder below its least range. Only then may a decoder have left the byte
/// alone that brings the coder back above it, with more bytes there.
pub open spec fn ends_wide(f: Format, x: Seq<u8>) -> bool {
    let s = f.setup(x)->Ok_0;
    f.opened(x) && wide_end(s.props(), f.first(x), s.limit())
}

/// Two decoders at the end of a payload have left the same of it.
proof fn lemma_rest_agrees(p: Props, m: Machine, limit: Option<nat>, n1: Machine, n2: Machine)
    requires
        p.wf(),
        m.wf(p),
        placed(p, m, limit, true, n1),
        placed(p, m, limit, true, n2),
        tight(p, m, limit, n1) || n1.coding.input.len() == 0,
        tight(p, m, limit, n2) || n2.coding.input.len() == 0,
    ensures
        n1.coding.lack == 0,
        n2.coding.lack == 0,
        n1.hist == n2.hist,
        n1 == n2 || wide_end(p, m, limit) && (n1 == settled(n2) || n2 == settled(n1)),
{
    reveal(tight);
    let k = lemma_end_halts(p, m, limit, n1);
    let j = lemma_end_halts(p, m, limit, n2);
    lemma_one_halt(p, m, limit, k, j);
    lemma_step(p, k, Seq::empty());
    lemma_settled(p, k);
    lemma_settled(p, step(p, k).0);
}

/// Two streams that are complete and were fed the same bytes have left the same
/// of them.
pub proof fn lemma_unused_agrees(v: StreamView, w: StreamView)
    requires
        v.format.wf(),
        v.format == w.format,
        v.fed == w.fed,
        complete(v),
        complete(w),
    ensures
        v.unused == w.unused || ends_wide(v.format, v.fed),
{
    let f = v.format;
    let s = f.setup(v.fed)->Ok_0;
    let n1 = lemma_complete_place(v);
    let n2 = lemma_complete_place(w);
    lemma_first_wf(f, v.fed);
    lemma_rest_agrees(s.props(), f.first(v.fed), s.limit(), n1, n2);
}

/// However the bytes of a source arrive, what comes out of a reader is the same,
/// and so is what it leaves.
pub proof fn lemma_readers_agree<R: Read, S: Read>(v: ReaderView<R>, w: ReaderView<S>)
    requires
        v.format.wf(),
        v.format == w.format,
        v.all == w.all,
        v.ended,
        w.ended,
        read_soundly(v),
        read_soundly(w),
    ensures
        v.out == w.out,
        v.rest == w.rest || ends_wide(v.format, v.all),
        v.buffered.len() > 0 && w.buffered.len() > 0 ==> v.rest == w.rest,
        v.format.setup(v.all)->Ok_0.allow_end_marker() ==> v.rest == w.rest,
{
    let f = v.format;
    let s = f.setup(v.all)->Ok_0;
    let n1 = lemma_read_place(v);
    let n2 = lemma_read_place(w);
    lemma_first_wf(f, v.all);
    lemma_reader_tight(f, v.all, n1);
    lemma_reader_tight(f, v.all, n2);
    lemma_rest_agrees(s.props(), f.first(v.all), s.limit(), n1, n2);
    if s.allow_end_marker() || v.buffered.len() > 0 && w.buffered.len() > 0 {
        lemma_settled_ends(s.props(), f.first(v.all), s.limit(), n1, n2);
    }
}

/// A reader at the end has taken in the last byte.
proof fn lemma_reader_tight(f: Format, x: Seq<u8>, n: Machine)
    requires
        read_to(f, x, true, n),
    ensures
        tight(f.setup(x)->Ok_0.props(), f.first(x), f.setup(x)->Ok_0.limit(), n),
{
    if settled(n) == n {
        reveal(tight);
    }
}

/// Two decoders at the end of a payload that have both taken in the last byte
/// stand at the same place.
proof fn lemma_settled_ends(p: Props, m: Machine, limit: Option<nat>, n1: Machine, n2: Machine)
    requires
        p.wf(),
        m.wf(p),
        placed(p, m, limit, true, n1),
        placed(p, m, limit, true, n2),
        settled(n1) == n1,
        settled(n2) == n2,
    ensures
        n1 == n2,
{
    let k = lemma_end_halts(p, m, limit, n1);
    let j = lemma_end_halts(p, m, limit, n2);
    lemma_one_halt(p, m, limit, k, j);
    lemma_step(p, k, Seq::empty());
    lemma_settled(p, k);
    lemma_settled(p, step(p, k).0);
}

/// A stream that is `x` and no more: its payload ends with the last byte of `x`,
/// with the coder brought back above its least range.
pub open spec fn exactly(f: Format, x: Seq<u8>) -> bool {
    exists|n: Machine| #[trigger]
        f.stands(x, true, n) && settled(n) == n && n.coding.input.len() == 0
}

/// The place where a stream ends that is `x` and no more, with `y` behind it.
proof fn lemma_exact_place(f: Format, x: Seq<u8>, y: Seq<u8>) -> (n: Machine)
    requires
        f.wf(),
        exactly(f, x),
    ensures
        f.stands(x + y, true, n),
        settled(n) == n,
        n.coding.input == y,
{
    let n = choose|n: Machine| #[trigger]
        f.stands(x, true, n) && settled(n) == n && n.coding.input.len() == 0;
    lemma_stands_more(f, x, y, true, n);
    assert(n.feed(y).coding.input =~= y);
    n.feed(y)
}

/// Of `x` with `y` behind it, the last byte of `x` is left too.
pub open spec fn one_byte_more(x: Seq<u8>, y: Seq<u8>, rest: Seq<u8>) -> bool {
    x.len() > 0 && rest == x.skip(x.len() - 1) + y
}

/// A decoder that has not taken in the last byte of `x` has left that and `y`.
proof fn lemma_one_byte_more(f: Format, x: Seq<u8>, y: Seq<u8>, n: Machine)
    requires
        f.wf(),
        f.stands(x + y, true, n),
        settled(n) != n,
        settled(n).coding.lack == n.coding.lack,
        settled(n).coding.input == y,
    ensures
        one_byte_more(x, y, n.coding.input),
{
    lemma_placed_suffix(f, x + y, true, n);
    let i = n.coding.input;
    assert(i.len() == y.len() + 1);
    assert(i =~= x.skip(x.len() - 1) + y);
}

/// What follows a stream is left alone: of `x` with `y` behind it, a stream that
/// is complete has not used `y`, and but for what `ends_wide` says nothing else.
pub proof fn lemma_unused_is_what_follows(v: StreamView, x: Seq<u8>, y: Seq<u8>)
    requires
        v.format.wf(),
        exactly(v.format, x),
        v.fed == x + y,
        complete(v),
    ensures
        v.unused == y || ends_wide(v.format, v.fed) && one_byte_more(x, y, v.unused),
{
    let f = v.format;
    let s = f.setup(v.fed)->Ok_0;
    let n1 = lemma_complete_place(v);
    let n2 = lemma_exact_place(f, x, y);
    lemma_first_wf(f, v.fed);
    reveal(tight);
    lemma_rest_agrees(s.props(), f.first(v.fed), s.limit(), n1, n2);
    if n1 != n2 {
        lemma_one_byte_more(f, x, y, n1);
    }
}

/// What follows the data is left alone: of `x` with `y` behind it, a reader that
/// has come to the end leaves `y`, however the bytes arrived. Only where the size
/// told of the end, the data ends as `ends_wide` says, and the last symbol took
/// all that had been read from the source, may the last byte of `x` be left too.
pub proof fn lemma_reader_leaves_what_follows<R: Read>(v: ReaderView<R>, x: Seq<u8>, y: Seq<u8>)
    requires
        v.format.wf(),
        exactly(v.format, x),
        v.all == x + y,
        v.ended,
        read_soundly(v),
    ensures
        v.rest == y || ends_wide(v.format, v.all) && one_byte_more(x, y, v.rest),
        v.buffered.len() > 0 ==> v.rest == y,
        v.format.setup(v.all)->Ok_0.allow_end_marker() ==> v.rest == y,
{
    let f = v.format;
    let s = f.setup(v.all)->Ok_0;
    let n1 = lemma_read_place(v);
    let n2 = lemma_exact_place(f, x, y);
    lemma_first_wf(f, v.all);
    lemma_reader_tight(f, v.all, n1);
    assert(tight(s.props(), f.first(v.all), s.limit(), n2)) by {
        reveal(tight);
    }
    lemma_rest_agrees(s.props(), f.first(v.all), s.limit(), n1, n2);
    if s.allow_end_marker() || v.buffered.len() > 0 {
        lemma_settled_ends(s.props(), f.first(v.all), s.limit(), n1, n2);
    }
    if n1 != n2 {
        lemma_one_byte_more(f, x, y, n1);
    }
}

/// A reader that has come to the end had nothing to refuse, where anything
/// follows the data. Where nothing does, it may still have wanted one more byte.
pub proof fn lemma_ended_is_readable<R: Read>(v: ReaderView<R>, e: Error)
    requires
        v.format.wf(),
        v.ended,
        read_soundly(v),
        v.rest.len() > 0 || e != Error::UnexpectedEnd,
    ensures
        !unreadable(v.format, v.all, e),
{
    let f = v.format;
    let s = f.setup(v.all)->Ok_0;
    let p = s.props();
    let m = f.first(v.all);
    let limit = s.limit();
    let n = lemma_read_place(v);
    lemma_first_wf(f, v.all);
    let k = lemma_end_halts(p, m, limit, n);
    lemma_step(p, k, Seq::empty());
    lemma_settled(p, k);
    lemma_settled(p, step(p, k).0);
    reveal(fault);
    reveal(short);
    assert forall|j: Machine| #[trigger] reaches(p, m, limit, 0, j) && j.coding.lack == 0 implies {
        &&& e != Error::NotTerminated ==> !faulty(p, j, limit, s.allow_end_marker(), false, e)
        &&& e == Error::UnexpectedEnd ==> {
            &&& !(may_begin(j, limit, 0) && step(p, j).0.coding.lack > 0)
            &&& settled(j).coding.lack == 0
            &&& !(may_begin(j, limit, 0) && step(p, j).1 == Outcome::EndMarker && settled(
                step(p, j).0,
            ).coding.lack > 0)
        }
    } by {
        lemma_one_halt(p, m, limit, k, j);
    }
}

} // verus!
