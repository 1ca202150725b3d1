//! A decoder that pulls its input out of a source.

use vstd::prelude::*;

use crate::coding::normalize;
use crate::decoder::{decoded, LzmaDecoder};
use crate::engine::{
    first_code, goal, lemma_failed, lemma_fault_kind, lemma_went_well, IN_REQUIRED, RC_INIT_SIZE,
    SIZE_MAX,
};
use crate::error::Error;
use crate::format::{
    data, lemma_first_wf, parse_header, refused, Format, Setup, HEADER_SIZE,
};
use crate::input::{InputBuffer, Read, ReadError, BUFFER_SIZE};
use crate::lz::{preset_bytes, LzDecoder};
use crate::progress::{
    arrives, enough, fault, lemma_arrives_chain, lemma_arrives_feed, lemma_arrives_here,
    lemma_fault_before, lemma_fault_chain, lemma_fault_feed, lemma_marked_chain,
    lemma_marked_feed, lemma_marked_settles, lemma_settled, lemma_settled_feed, lemma_short_chain, lemma_tight_chain,
    lemma_tight_feed, looser, marked, settled, short, tight,
};
use crate::props::{
    build_decoders, props_lc, props_lp, props_pb, split_props, DICT_SIZE_MAX, PROPS_MAX,
};
use crate::range::{RangeCoderState, RangeDecoder, RangeReader, SliceRangeReader};
use crate::stream::{lemma_written_chain, lemma_written, lemma_written_none, written};
use crate::symbol::{Machine, Props};

verus! {

/// A reader as mathematics.
pub struct ReaderView<R: Read> {
    pub format: Format,
    /// All that the source had to say when the reader was made.
    pub all: Seq<u8>,
    /// What the source fails with then, or nothing where it ends.
    pub failure: Option<R::Error>,
    /// What of it has not been used.
    pub rest: Seq<u8>,
    /// Every byte handed out.
    pub out: Seq<u8>,
    /// The end has been seen.
    pub ended: bool,
    /// A call has returned an error. Nothing is known of what follows.
    pub failed: bool,
    pub source: R,
    /// What has been read from the source and not been used.
    pub buffered: Seq<u8>,
}

/// A reader of the payload in `x` can stand at `n`: at its end, with all the
/// bytes there or behind an end marker where there may be one, or somewhere
/// along it. At the end the coder has been brought back above its least range,
/// but for what `tight` says where the size told of the end.
pub open spec fn read_to(f: Format, x: Seq<u8>, end: bool, n: Machine) -> bool {
    let s = f.setup(x)->Ok_0;
    &&& f.opened(x)
    &&& if end {
        ||| s.limit() is Some && arrives(s.props(), f.first(x), s.limit(), n) && n.hist.len()
            == s.limit()->0 && tight(s.props(), f.first(x), s.limit(), n)
        ||| s.allow_end_marker() && marked(s.props(), f.first(x), s.limit(), n) && settled(n) == n
    } else {
        arrives(s.props(), f.first(x), s.limit(), n)
    }
}

/// What has been handed out is how the data begins, and all of it at the end,
/// and what was not used is what follows.
pub open spec fn read_soundly<R: Read>(v: ReaderView<R>) -> bool {
    exists|n: Machine| #[trigger] read_to(v.format, v.all, v.ended, n) && read_at(v, n)
}

/// What has been handed out was decoded at `n`, and what was not used is what
/// follows. At the end a byte that the coder was still without has been taken in,
/// where it had been read from the source.
pub open spec fn read_at<R: Read>(v: ReaderView<R>, n: Machine) -> bool {
    let all = data(v.format.setup(v.all)->Ok_0, n);
    &&& n.coding.input == v.rest
    &&& v.ended ==> settled(n) == n || v.buffered.len() == 0
    &&& if v.ended {
        v.out == all
    } else {
        v.out.is_prefix_of(all)
    }
}

/// What is wrong with data that a reader refused.
pub open spec fn unreadable(f: Format, x: Seq<u8>, e: Error) -> bool {
    let s = f.setup(x)->Ok_0;
    &&& f.opened(x)
    &&& match e {
        Error::UnexpectedEnd => short(s.props(), f.first(x), s.limit()),
        Error::DistOverflow | Error::EndNotFinished => fault(
            s.props(),
            f.first(x),
            s.limit(),
            s.allow_end_marker(),
            false,
            e,
        ),
        _ => false,
    }
}

/// What a reader of `x` fails with, where the source goes on with `failure`:
/// where bytes are missing, what the source failed with comes back as it was.
pub open spec fn unread_for<E>(f: Format, x: Seq<u8>, failure: Option<E>, e: ReadError<E>) -> bool {
    match e {
        ReadError::Source(e) => failure == Some(e) && unreadable(f, x, Error::UnexpectedEnd),
        ReadError::Data(e) => unreadable(f, x, e) && (e == Error::UnexpectedEnd ==> failure is None),
    }
}

/// What a reader of `x` cannot be opened for, where the source goes on with
/// `failure`. It is opened where the header and the first bytes of the payload
/// are as they should be.
pub open spec fn unopened_for<E>(
    f: Format,
    x: Seq<u8>,
    failure: Option<E>,
    e: ReadError<E>,
) -> bool {
    &&& !f.opened(x)
    &&& match e {
        ReadError::Source(e) => failure == Some(e) && refused(f, x, true, Error::UnexpectedEnd),
        ReadError::Data(e) => {
            &&& refused(f, x, true, e)
            &&& e == Error::UnexpectedEnd ==> failure is None
        },
    }
}

/// What came instead of a byte that `failure` stands for.
spec fn at_end<E>(failure: Option<E>, e: ReadError<E>) -> bool {
    match e {
        ReadError::Source(e) => failure == Some(e),
        ReadError::Data(e) => failure is None && e == Error::UnexpectedEnd,
    }
}

/// Takes one byte from a source.
fn read_byte<R: Read>(reader: &mut R) -> (r: Result<u8, ReadError<R::Error>>)
    ensures
        match r {
            Ok(b) => {
                let x = old(reader).remaining();
                &&& x.len() > 0
                &&& b == x[0]
                &&& final(reader).remaining() == x.skip(1)
                &&& final(reader).failure() == old(reader).failure()
            },
            Err(e) => old(reader).remaining().len() == 0 && at_end(old(reader).failure(), e),
        },
{
    let mut one: Vec<u8> = vec![0u8; 1];
    match reader.read(one.as_mut_slice()) {
        Ok(n) => {
            if n == 0 {
                Err(ReadError::Data(Error::UnexpectedEnd))
            } else {
                proof {
                    assert(old(reader).remaining()[0] == one@[0]);
                    assert(old(reader).remaining().skip(1) =~= reader.remaining());
                }
                Ok(one[0])
            }
        },
        Err(e) => Err(ReadError::Source(e)),
    }
}

/// Takes the header from a source.
fn read_header<R: Read>(reader: &mut R) -> (r: Result<Vec<u8>, ReadError<R::Error>>)
    ensures
        match r {
            Ok(h) => {
                let x = old(reader).remaining();
                &&& x.len() >= HEADER_SIZE
                &&& h@ == x.take(HEADER_SIZE as int)
                &&& final(reader).remaining() == x.skip(HEADER_SIZE as int)
                &&& final(reader).failure() == old(reader).failure()
            },
            Err(e) => {
                &&& old(reader).remaining().len() < HEADER_SIZE
                &&& at_end(old(reader).failure(), e)
            },
        },
{
    let ghost x = reader.remaining();
    let mut h: Vec<u8> = Vec::new();
    assert(x.take(0) =~= h@);
    assert(x.skip(0) =~= x);
    while h.len() < HEADER_SIZE
        invariant
            h@.len() <= HEADER_SIZE,
            h@.len() <= x.len(),
            x == old(reader).remaining(),
            h@ == x.take(h@.len() as int),
            reader.remaining() == x.skip(h@.len() as int),
            reader.failure() == old(reader).failure(),
        decreases HEADER_SIZE - h@.len(),
    {
        let ghost n = h@.len() as int;
        match read_byte(reader) {
            Ok(b) => {
                h.push(b);
                proof {
                    assert(h@ =~= x.take(n + 1));
                    assert(x.skip(n).skip(1) =~= x.skip(n + 1));
                }
            },
            Err(e) => {
                return Err(e);
            },
        }
    }
    Ok(h)
}

/// Starts the range coder from what a buffer has.
fn start_coder<R: Read>(input: InputBuffer<R>) -> (r: Result<
    RangeDecoder<InputBuffer<R>>,
    ReadError<R::Error>,
>)
    requires
        input.wf(),
        input.lack() == 0,
    ensures
        match r {
            Ok(c) => {
                let x = input.rest();
                &&& x.len() >= RC_INIT_SIZE
                &&& x[0] == 0
                &&& c.wf()
                &&& c.inner.lack() == 0
                &&& c.inner.end() == input.end()
                &&& c.range == 0xFFFF_FFFF
                &&& c.code == first_code(x)
                &&& c.inner.rest() == x.skip(RC_INIT_SIZE as int)
            },
            Err(e) => if input.rest().len() < RC_INIT_SIZE {
                at_end(input.end(), e)
            } else {
                e == ReadError::<R::Error>::Data(Error::FirstByteNotZero) && input.rest()[0] != 0
            },
        },
{
    let ghost x = input.rest();
    let ghost end = input.end();
    let mut input = input;
    let mut b: Vec<u8> = Vec::new();
    proof {
        assert(x.take(0) =~= b@);
        assert(x.skip(0) =~= x);
    }
    while b.len() < RC_INIT_SIZE
        invariant
            input.wf(),
            b@.len() <= RC_INIT_SIZE,
            input.end() == end,
            input.lack() == 0 ==> {
                &&& b@.len() <= x.len()
                &&& b@ == x.take(b@.len() as int)
                &&& input.rest() == x.skip(b@.len() as int)
            },
            input.lack() > 0 ==> x.len() < RC_INIT_SIZE,
        decreases RC_INIT_SIZE - b@.len(),
    {
        let ghost n = b@.len() as int;
        let ghost before = input;
        let byte = input.next_byte();
        b.push(byte);
        proof {
            if input.lack() == 0 {
                assert(b@ =~= x.take(n + 1));
                assert(x.skip(n).drop_first() =~= x.skip(n + 1));
            }
        }
    }
    proof {
        input.lemma_state();
    }
    if let Some(e) = input.take_failure() {
        return Err(e);
    }
    if b[0] != 0 {
        return Err(ReadError::Data(Error::FirstByteNotZero));
    }
    let code: u32 = b[1] as u32 * 0x100_0000 + b[2] as u32 * 0x1_0000 + b[3] as u32 * 0x100
        + b[4] as u32;
    assert(code == first_code(x));
    Ok(RangeDecoder::from_parts(input, RangeCoderState { range: 0xFFFF_FFFF, code }))
}

/// A decoder for LZMA data that pulls its input out of a source.
///
/// It takes its input through a buffer, and exactly the bytes it needs out of
/// that. Data that has arrived whole ends without the source being asked for
/// more, and what was read past its end comes back from `into_parts`.
pub struct LzmaReader<R: Read> {
    lz: LzDecoder,
    lzma: LzmaDecoder,
    coder: RangeDecoder<InputBuffer<R>>,
    end_reached: bool,
    remaining_size: u64,
    format: Ghost<Format>,
    all: Ghost<Seq<u8>>,
    out: Ghost<Seq<u8>>,
    failed: Ghost<bool>,
}

impl<R: Read> View for LzmaReader<R> {
    type V = ReaderView<R>;

    closed spec fn view(&self) -> ReaderView<R> {
        ReaderView {
            format: self.format@,
            all: self.all@,
            failure: self.coder.inner.end(),
            rest: self.coder.inner.rest(),
            out: self.out@,
            ended: self.end_reached,
            failed: self.failed@,
            source: self.coder.inner.source(),
            buffered: self.coder.inner.buffered(),
        }
    }
}

impl<R: Read> LzmaReader<R> {
    closed spec fn setup(&self) -> Setup {
        self.format@.setup(self.all@)->Ok_0
    }

    /// The machine that the reader stands at.
    closed spec fn machine(&self) -> Machine {
        self.lzma@.machine(self.coder.coding(self.lzma@.probs), self.lz@.ideal())
    }

    /// What holds even after a failure.
    closed spec fn base_inv(&self) -> bool {
        &&& self.lz.wf()
        &&& self.lzma.wf()
        &&& self.coder.wf()
        &&& self.coder.inner.lack() == 0
    }

    closed spec fn inv(&self) -> bool {
        let s = self.setup();
        &&& self.base_inv()
        &&& self.format@.wf()
        &&& read_to(self.format@, self.all@, self.end_reached, self.machine())
        &&& self.lz@.size == s.dict
        &&& self.lzma@.props(s.dict) == s.props()
        &&& s.preset.is_prefix_of(self.lz@.hist)
        &&& self.lz@.delivered == self.lz@.hist.len()
        &&& self.out@ == self.lz@.hist.skip(s.preset.len() as int)
        &&& goal(self.lz@.hist.len(), self.remaining_size) == s.limit()
        &&& (self.remaining_size == u64::MAX) == s.allow_end_marker()
        &&& self.end_reached ==> {
            &&& self.lz@.pending == 0
            &&& settled(self.machine()) == self.machine() || self.coder.inner.buffered().len() == 0
        }
        &&& !self.end_reached ==> !self.lzma@.end_marker
    }

    pub closed spec fn wf(&self) -> bool {
        &&& self.base_inv()
        &&& self.failed@ || self.inv()
    }

    /// A reader for bare payloads of `uncomp_size` bytes, `u64::MAX` for an
    /// unknown number of them.
    pub fn new(
        reader: R,
        uncomp_size: u64,
        lc: u32,
        lp: u32,
        pb: u32,
        dict_size: u32,
        preset_dict: Option<&[u8]>,
    ) -> (r: Result<Self, ReadError<R::Error>>)
        ensures
            ({
                let preset = preset_bytes(preset_dict);
                let f = Format::Raw {
                    setup: Setup::given(uncomp_size, lc, lp, pb, dict_size, preset),
                };
                let x = reader.remaining();
                match r {
                    Ok(s) => {
                        &&& lc <= 8 && lp <= 4 && pb <= 4
                        &&& dict_size <= DICT_SIZE_MAX
                        &&& s.wf()
                        &&& opened_on(s@, f, x, reader.failure())
                    },
                    Err(e) => if lc > 8 || lp > 4 || pb > 4 {
                        e == ReadError::<R::Error>::Data(Error::InvalidLcLpPb)
                    } else if dict_size > DICT_SIZE_MAX {
                        e == ReadError::<R::Error>::Data(Error::DictSizeTooLarge)
                    } else {
                        unopened_for(f, x, reader.failure(), e)
                    },
                }
            }),
    {
        let ghost f = Format::Raw {
            setup: Setup::given(uncomp_size, lc, lp, pb, dict_size, preset_bytes(preset_dict)),
        };
        let ghost x = reader.remaining();
        assert(x.skip(0) =~= x);
        Self::construct(reader, uncomp_size, lc, lp, pb, dict_size, preset_dict, Ghost(f), Ghost(x))
    }

    /// The decoders, and the coder over what the source has to say.
    fn construct(
        reader: R,
        uncomp_size: u64,
        lc: u32,
        lp: u32,
        pb: u32,
        dict_size: u32,
        preset_dict: Option<&[u8]>,
        format: Ghost<Format>,
        all: Ghost<Seq<u8>>,
    ) -> (r: Result<Self, ReadError<R::Error>>)
        requires
            lc <= 8 && lp <= 4 && pb <= 4 && dict_size <= DICT_SIZE_MAX ==> {
                let f = format@;
                let setup = Setup::given(
                    uncomp_size,
                    lc,
                    lp,
                    pb,
                    dict_size,
                    preset_bytes(preset_dict),
                );
                &&& all@.len() >= f.header_len()
                &&& f.setup(all@) == Ok::<Setup, Error>(setup)
                &&& f is Raw ==> f == (Format::Raw { setup })
                &&& reader.remaining() == all@.skip(f.header_len() as int)
            },
        ensures
            match r {
                Ok(s) => {
                    &&& lc <= 8 && lp <= 4 && pb <= 4
                    &&& dict_size <= DICT_SIZE_MAX
                    &&& s.wf()
                    &&& opened_on(s@, format@, all@, reader.failure())
                },
                Err(e) => if lc > 8 || lp > 4 || pb > 4 {
                    e == ReadError::<R::Error>::Data(Error::InvalidLcLpPb)
                } else if dict_size > DICT_SIZE_MAX {
                    e == ReadError::<R::Error>::Data(Error::DictSizeTooLarge)
                } else {
                    unopened_for(format@, all@, reader.failure(), e)
                },
            },
    {
        let (lz, lzma) = match build_decoders(uncomp_size, lc, lp, pb, dict_size, preset_dict) {
            Ok(parts) => parts,
            Err(e) => {
                return Err(ReadError::Data(e));
            },
        };
        let ghost f = format@;
        let ghost x = all@;
        let ghost h = f.header_len() as int;
        let coder = match start_coder(InputBuffer::new(reader)) {
            Ok(coder) => coder,
            Err(e) => {
                return Err(e);
            },
        };
        let s = LzmaReader {
            lz,
            lzma,
            coder,
            end_reached: false,
            remaining_size: uncomp_size,
            format,
            all,
            out: Ghost(Seq::empty()),
            failed: Ghost(false),
        };
        proof {
            let setup = s.setup();
            lz.lemma_wf();
            s.coder.inner.lemma_state();
            assert(x[h] == x.skip(h)[0]);
            assert(x.skip(h).skip(RC_INIT_SIZE as int) =~= x.skip(h + RC_INIT_SIZE));
            assert(s.machine().coding =~= f.first(x).coding);
            assert(s.machine() =~= f.first(x));
            lemma_arrives_here(setup.props(), f.first(x), setup.limit());
            assert(s.out@ =~= lz@.hist.skip(setup.preset.len() as int));
        }
        Ok(s)
    }

    /// A reader for bare payloads, with the parameters of a properties byte.
    pub fn new_with_props(
        reader: R,
        uncomp_size: u64,
        props: u8,
        dict_size: u32,
        preset_dict: Option<&[u8]>,
    ) -> (r: Result<Self, ReadError<R::Error>>)
        ensures
            ({
                let f = Format::Raw {
                    setup: Setup::given(
                        uncomp_size,
                        props_lc(props),
                        props_lp(props),
                        props_pb(props),
                        dict_size,
                        preset_bytes(preset_dict),
                    ),
                };
                let x = reader.remaining();
                match r {
                    Ok(s) => {
                        &&& props <= PROPS_MAX
                        &&& dict_size <= DICT_SIZE_MAX
                        &&& s.wf()
                        &&& opened_on(s@, f, x, reader.failure())
                    },
                    Err(e) => if props > PROPS_MAX {
                        e == ReadError::<R::Error>::Data(Error::InvalidPropsByte)
                    } else if dict_size > DICT_SIZE_MAX {
                        e == ReadError::<R::Error>::Data(Error::DictSizeTooLarge)
                    } else {
                        unopened_for(f, x, reader.failure(), e)
                    },
                }
            }),
    {
        match split_props(props) {
            Ok((lc, lp, pb)) => Self::new(
                reader,
                uncomp_size,
                lc,
                lp,
                pb,
                dict_size,
                preset_dict,
            ),
            Err(e) => Err(ReadError::Data(e)),
        }
    }

    /// A reader for files, with a limit on the memory in KiB and a preset
    /// dictionary, if there is one. `u32::MAX` means no limit.
    pub fn new_mem_limit(reader: R, mem_limit_kb: u32, preset_dict: Option<&[u8]>) -> (r: Result<
        Self,
        ReadError<R::Error>,
    >)
        ensures
            ({
                let f = Format::File { mem_limit_kb, preset: preset_bytes(preset_dict) };
                let x = reader.remaining();
                match r {
                    Ok(s) => s.wf() && opened_on(s@, f, x, reader.failure()),
                    Err(e) => unopened_for(f, x, reader.failure(), e),
                }
            }),
    {
        let ghost f = Format::File { mem_limit_kb, preset: preset_bytes(preset_dict) };
        let ghost x = reader.remaining();
        let mut reader = reader;
        let h = match read_header(&mut reader) {
            Ok(h) => h,
            Err(e) => {
                return Err(e);
            },
        };
        assert(f.setup(h@) == f.setup(x));
        match parse_header(h.as_slice(), mem_limit_kb) {
            Ok(d) => Self::construct(
                reader,
                d.uncomp_size,
                d.lc,
                d.lp,
                d.pb,
                d.dict_size,
                preset_dict,
                Ghost(f),
                Ghost(x),
            ),
            Err(e) => Err(ReadError::Data(e)),
        }
    }

    /// Runs the decoder for a while. It comes back once the output is full or
    /// the payload has ended, and also when the buffered input drops below a
    /// symbol's worth, or climbs back above it after a refill.
    fn decode(&mut self) -> (r: Result<(), Error>)
        requires
            old(self).base_inv(),
            old(self).lz@.allocated,
        ensures
            *final(self) == (LzmaReader {
                lz: final(self).lz,
                lzma: final(self).lzma,
                coder: final(self).coder,
                ..*old(self)
            }),
            final(self).lz.wf(),
            final(self).lzma.wf(),
            final(self).coder.wf(),
            final(self).lzma@.props(0) == old(self).lzma@.props(0),
            crate::lz::grown(old(self).lz@, final(self).lz@),
            final(self).lz@.pending > 0 ==> final(self).lz@.room == 0,
            r is Ok ==> !final(self).lzma@.end_marker,
            r is Ok && old(self).lz@.room > 0 ==> final(self).lz@.hist.len()
                > old(self).lz@.hist.len(),
            r is Err ==> r == Err::<(), Error>(Error::DistOverflow),
            final(self).coder.inner.end() == old(self).coder.inner.end(),
            !old(self).lzma@.end_marker && r is Ok && enough(
                final(self).machine(),
                Some(old(self).lz@.hist.len() + old(self).lz@.room),
            ) ==> settled(final(self).machine()) == final(self).machine()
                || final(self).coder.inner.buffered().len() == 0,
            !old(self).lzma@.end_marker ==> went(
                old(self).lzma@.props(old(self).lz@.size),
                old(self).machine(),
                Some(old(self).lz@.hist.len() + old(self).lz@.room),
                final(self).machine(),
                final(self).lzma@.end_marker,
                r is Ok,
            ),
    {
        let ghost before = *self;
        let ghost p = self.lzma@.props(self.lz@.size);
        let ghost near = Some(self.lz@.hist.len() + self.lz@.room);
        let ghost m = self.machine();
        proof {
            self.coder.inner.lemma_state();
            self.lz.lemma_wf();
        }
        let unread = self.coder.inner.unread();
        if unread.len() >= IN_REQUIRED {
            // Straight over the buffer. A symbol may start only while a whole
            // one is sure to be there.
            let reader = SliceRangeReader::new(unread, IN_REQUIRED);
            let ghost short_m = self.lzma@.machine(
                (RangeCoderState { range: self.coder.range, code: self.coder.code }).over(
                    unread@,
                    self.lzma@.probs,
                ),
                self.lz@.ideal(),
            );
            let ghost more = self.coder.inner.source().remaining();
            let mut rc = RangeDecoder::from_parts(reader, self.coder.state());
            proof {
                reader.lemma_slice();
                assert(rc.coding(self.lzma@.probs) =~= short_m.coding);
                assert(m =~= short_m.feed(more)) by {
                    assert(m.coding =~= short_m.feed(more).coding);
                }
            }
            let r = self.lzma.decode(&mut self.lz, &mut rc);
            proof {
                rc.inner.lemma_slice();
            }
            let taken = rc.inner.pos();
            let state = rc.state();
            let ghost n = self.lzma@.machine(rc.coding(self.lzma@.probs), self.lz@.ideal());
            self.coder.range = state.range;
            self.coder.code = state.code;
            self.coder.inner.advance(taken);
            proof {
                self.coder.inner.lemma_state();
                self.lz.lemma_wf();
                if !before.lzma@.end_marker {
                    let ok = r is Ok;
                    let marker = self.lzma@.end_marker;
                    if ok {
                        lemma_went_well(p, short_m, near, near, 20, 0, n, marker, true, false);
                    } else {
                        lemma_failed(p, short_m, near, near, 20, 0, n, marker, false);
                    }
                    lemma_went_slice(p, short_m, near, n, self.lzma@.end_marker, ok, more);
                    assert(self.machine() =~= n.feed(more)) by {
                        assert(self.machine().coding =~= n.feed(more).coding);
                    }
                    lemma_settled_feed(n, more);
                }
            }
            return r;
        }
        // The last few bytes, a byte at a time, with a refill when a symbol
        // needs more. Data that ends within them ends here, and the source is
        // not asked for more.
        let r = self.lzma.decode(&mut self.lz, &mut self.coder);
        proof {
            self.coder.inner.lemma_state();
            reveal(went);
            if r is Ok && !before.lzma@.end_marker {
                let n = self.machine();
                lemma_went_well(p, m, near, near, 0, -1, n, self.lzma@.end_marker, true, false);
            }
        }
        r
    }

    /// Decodes what fits into `buf` from `off` on, for a while. Returns how far
    /// `buf` is full.
    #[verifier::rlimit(50)]
    fn read_turn(&mut self, buf: &mut [u8], off: usize) -> (r: Result<usize, ReadError<R::Error>>)
        requires
            old(self).base_inv(),
            old(self).failed@ || old(self).inv(),
            old(self).lz@.allocated,
            !old(self).end_reached,
            off < old(buf)@.len(),
        ensures
            final(self).base_inv(),
            final(self).format == old(self).format,
            final(self).all == old(self).all,
            final(self).failed == old(self).failed,
            final(buf)@.len() == old(buf)@.len(),
            r matches Ok(pos) ==> {
                &&& final(self).lz@.allocated
                &&& off <= pos <= old(buf)@.len()
                &&& final(self).coder.inner.end() == old(self).coder.inner.end()
                &&& {
                    ||| final(self).end_reached
                    ||| pos > off
                    ||| old(self).lz@.space == 0 && final(self).lz@.space > 0
                }
            },
            !old(self).failed@ ==> match r {
                Ok(pos) => {
                    &&& final(self).inv()
                    &&& written(
                        old(self).out@,
                        final(self).out@,
                        old(buf)@,
                        final(buf)@,
                        off,
                        pos,
                    )
                },
                Err(e) => unread_for(
                    old(self).format@,
                    old(self).all@,
                    old(self).coder.inner.end(),
                    e,
                ),
            },
    {
        let ghost before = *self;
        let ghost f = self.format@;
        let ghost s = self.setup();
        let ghost p = s.props();
        let ghost first = f.first(self.all@);
        let ghost m = self.machine();
        let ghost fine = !self.failed@;
        let ghost limit = s.limit();
        let ghost allow = s.allow_end_marker();
        proof {
            self.lz.lemma_wf();
            if fine {
                lemma_first_wf(f, self.all@);
                assert(m.wf(p));
            }
        }
        let len = buf.len() - off;
        let copy_max = if self.remaining_size <= SIZE_MAX && self.remaining_size < len as u64 {
            self.remaining_size as usize
        } else {
            len
        };
        self.lz.set_limit(copy_max);
        let ghost near = Some(self.lz@.hist.len() + self.lz@.room);
        let decoded = self.decode();
        let ghost n = self.machine();
        let ghost marker = self.lzma@.end_marker;
        proof {
            self.coder.inner.lemma_state();
            self.lz.lemma_wf();
            if fine {
                lemma_went(p, m, near, limit, n, marker, decoded is Ok, allow);
            }
        }
        if let Some(e) = self.coder.inner.take_failure() {
            proof {
                if fine {
                    lemma_short_chain(p, first, limit, m);
                }
            }
            return Err(e);
        }
        assert(self.machine() =~= n) by {
            assert(fine ==> self.machine().coding =~= n.coding);
        }
        if let Err(e) = decoded {
            if self.remaining_size != u64::MAX || !self.lzma.end_marker_detected() {
                proof {
                    if fine {
                        lemma_fault_chain(p, first, limit, allow, false, m, e);
                        lemma_fault_kind(p, first, limit, allow, false, e);
                    }
                }
                return Err(ReadError::Data(e));
            }
            self.end_reached = true;
            self.coder.normalize();
            proof {
                self.coder.inner.lemma_state();
                assert(self.coder.coding(self.lzma@.probs) == normalize(n.coding));
                assert(self.machine() =~= settled(n));
            }
            if let Some(e) = self.coder.inner.take_failure() {
                proof {
                    if fine {
                        lemma_short_chain(p, first, limit, m);
                    }
                }
                return Err(e);
            }
        }
        let ghost k = self.machine();
        proof {
            if fine {
                if decoded is Ok {
                    assert(arrives(p, m, limit, k));
                    lemma_arrives_chain(p, first, limit, m, k);
                    if enough(k, near) {
                        lemma_tight_chain(p, first, limit, m, k);
                    }
                } else {
                    assert(k =~= settled(n)) by {
                        assert(k.coding =~= settled(n).coding);
                    }
                    lemma_marked_chain(p, first, limit, m, k);
                    lemma_marked_settles(p, m, limit, n);
                    lemma_settled(p, n);
                }
            }
        }
        let ghost w = self.lz@;
        let copied = self.lz.flush_at(buf, off);
        assert(buf@.len() == old(buf)@.len());
        assert(off + copied <= buf.len());
        proof {
            let new = w.hist.subrange(w.delivered as int, w.delivered + copied);
            self.out@ = self.out@ + new;
            lemma_written(before.out@, new, old(buf)@, buf@, off, (off + copied) as usize);
            if fine {
                let h = s.preset.len() as int;
                assert(self.out@ =~= self.lz@.hist.skip(h));
            }
            assert(self.machine() == k);
        }
        if self.remaining_size <= SIZE_MAX {
            self.remaining_size = self.remaining_size.saturating_sub(copied as u64);
            if self.remaining_size == 0 {
                self.end_reached = true;
            }
        }
        proof {
            self.lz.lemma_wf();
        }
        if self.end_reached && self.lz.has_pending() {
            proof {
                if fine {
                    lemma_fault_chain(p, first, limit, allow, false, m, Error::EndNotFinished);
                }
            }
            return Err(ReadError::Data(Error::EndNotFinished));
        }
        Ok(off + copied)
    }

    fn read_decode(&mut self, buf: &mut [u8]) -> (r: Result<usize, ReadError<R::Error>>)
        requires
            old(self).base_inv(),
            old(self).failed@ || old(self).inv(),
        ensures
            final(self).base_inv(),
            final(self).format == old(self).format,
            final(self).all == old(self).all,
            final(self).failed == old(self).failed,
            final(buf)@.len() == old(buf)@.len(),
            r matches Ok(n) ==> {
                &&& n <= old(buf)@.len()
                &&& n < old(buf)@.len() ==> final(self).end_reached
                &&& final(self).coder.inner.end() == old(self).coder.inner.end()
                &&& old(self).end_reached || old(buf)@.len() == 0 ==> *final(self) == *old(self)
            },
            old(self).end_reached || old(buf)@.len() == 0 ==> r == Ok::<
                usize,
                ReadError<R::Error>,
            >(0),
            !old(self).failed@ ==> match r {
                Ok(n) => {
                    &&& final(self).inv()
                    &&& written(old(self).out@, final(self).out@, old(buf)@, final(buf)@, 0, n)
                },
                Err(e) => unread_for(
                    old(self).format@,
                    old(self).all@,
                    old(self).coder.inner.end(),
                    e,
                ),
            },
    {
        proof {
            lemma_written_none(self.out@, buf@, 0);
        }
        if buf.len() == 0 || self.end_reached {
            return Ok(0);
        }
        let made = self.lz.ensure_capacity();
        let ghost before = *self;
        let mut off: usize = 0;
        proof {
            assert(self.failed@ || self.inv()) by {
                assert(self.machine() == old(self).machine());
            }
        }
        while off < buf.len()
            invariant
                self.base_inv(),
                self.failed@ || self.inv(),
                self.lz@.allocated,
                !self.end_reached,
                !old(self).end_reached,
                old(buf)@.len() > 0,
                before.out == old(self).out,
                before.format == old(self).format,
                before.all == old(self).all,
                before.failed == old(self).failed,
                self.format == before.format,
                self.all == before.all,
                self.failed == before.failed,
                self.coder.inner.end() == old(self).coder.inner.end(),
                buf@.len() == old(buf)@.len(),
                off <= buf@.len(),
                !self.failed@ ==> written(before.out@, self.out@, old(buf)@, buf@, 0, off),
            decreases
                    buf@.len() - off,
                    (if self.lz@.space == 0 {
                        1int
                    } else {
                        0int
                    }),
        {
            let ghost mid = buf@;
            let ghost out = self.out@;
            match self.read_turn(buf, off) {
                Ok(pos) => {
                    proof {
                        if !self.failed@ {
                            lemma_written_chain(
                                before.out@,
                                out,
                                self.out@,
                                old(buf)@,
                                mid,
                                buf@,
                                off,
                                pos,
                            );
                        }
                    }
                    off = pos;
                },
                Err(e) => {
                    return Err(e);
                },
            }
            if self.end_reached {
                return Ok(off);
            }
        }
        Ok(off)
    }

    /// Puts decoded bytes into `buf` and returns how many: as many as it takes,
    /// but for the last ones. What the source fails with comes back as it was.
    pub fn read(&mut self, buf: &mut [u8]) -> (r: Result<usize, ReadError<R::Error>>)
        requires
            old(self).wf(),
        ensures
            final(self).wf(),
            final(self)@.format == old(self)@.format,
            final(self)@.all == old(self)@.all,
            final(self)@.failed == (old(self)@.failed || r is Err),
            final(buf)@.len() == old(buf)@.len(),
            r matches Ok(n) ==> {
                &&& n <= old(buf)@.len()
                &&& n < old(buf)@.len() ==> final(self)@.ended
                &&& final(self)@.failure == old(self)@.failure
                &&& old(self)@.ended || old(buf)@.len() == 0 ==> final(self)@ == old(self)@
            },
            // Nothing is read where there is no room for it or none is left.
            old(self)@.ended || old(buf)@.len() == 0 ==> r == Ok::<usize, ReadError<R::Error>>(0),
            !old(self)@.failed ==> match r {
                Ok(n) => {
                    &&& written(old(self)@.out, final(self)@.out, old(buf)@, final(buf)@, 0, n)
                    &&& read_soundly(final(self)@)
                },
                Err(e) => unread_for(old(self)@.format, old(self)@.all, old(self)@.failure, e),
            },
    {
        let r = self.read_decode(buf);
        if r.is_err() {
            proof {
                self.failed@ = true;
            }
        } else {
            proof {
                if !self.failed@ {
                    self.lemma_sound();
                }
            }
        }
        r
    }

    /// What has been handed out is sound, and the source has the rest.
    pub proof fn lemma_sound(&self)
        requires
            self.wf(),
            !self@.failed,
        ensures
            self@.format.wf(),
            read_soundly(self@),
            self@.rest == self@.buffered + self@.source.remaining(),
            self@.buffered.len() <= BUFFER_SIZE,
            self@.failure == self@.source.failure(),
    {
        let s = self.setup();
        let n = self.machine();
        self.lz.lemma_wf();
        self.coder.inner.lemma_state();
        assert(read_to(self@.format, self@.all, self@.ended, n));
        assert(self.out@.is_prefix_of(data(s, n)));
    }

    /// The source. Bytes that were read ahead of the end of the data are
    /// dropped, where `into_parts` hands them over.
    pub fn into_inner(self) -> (r: R)
        ensures
            r == self@.source,
    {
        self.coder.inner.into_inner()
    }

    /// The source, and the bytes read from it that the data did not use. They
    /// are what followed it, for a caller that goes on from there.
    pub fn into_parts(self) -> (r: (R, Vec<u8>))
        requires
            self.wf(),
        ensures
            r.0 == self@.source,
            r.1@ == self@.buffered,
            r.1@.len() <= BUFFER_SIZE,
            r.1@.len() <= 0x1_0000,
            r.1@ + r.0.remaining() == self@.rest,
    {
        proof {
            self.coder.inner.lemma_state();
        }
        self.coder.inner.into_parts()
    }

    /// The source.
    pub fn inner(&self) -> (r: &R)
        ensures
            *r == self@.source,
    {
        self.coder.inner.inner()
    }

    /// The source, to be changed. The reader goes on as before where what the
    /// source has to say stays the same.
    pub fn inner_mut(&mut self) -> (r: &mut R)
        requires
            old(self).wf(),
        ensures
            *r == old(self)@.source,
            final(self)@ == (ReaderView {
                source: *final(r),
                rest: old(self)@.buffered + final(r).remaining(),
                failure: final(r).failure(),
                ..old(self)@
            }),
            final(r).remaining() == old(self)@.source.remaining() ==> final(self).wf(),
    {
        proof {
            self.coder.inner.lemma_state();
        }
        self.coder.inner.inner_mut()
    }
}

/// What a run of the decoder makes of the payload at `m`, as far as a reader
/// goes by it.
#[verifier::opaque]
pub open spec fn went(
    p: Props,
    m: Machine,
    near: Option<nat>,
    n: Machine,
    end_marker: bool,
    ok: bool,
) -> bool {
    ||| decoded(p, m, false, near, 0, -1, n, end_marker, ok)
    ||| exists|a: Machine, b: Machine, more: Seq<u8>|
        #![trigger a.feed(more), b.feed(more)]
        {
            &&& m == a.feed(more)
            &&& n == b.feed(more)
            &&& a.coding.lack == 0
            &&& a.coding.input.len() > 0
            &&& decoded(p, a, false, near, IN_REQUIRED as nat, 0, b, end_marker, ok)
        }
}

proof fn lemma_went_slice(
    p: Props,
    a: Machine,
    near: Option<nat>,
    b: Machine,
    end_marker: bool,
    ok: bool,
    more: Seq<u8>,
)
    requires
        a.coding.lack == 0,
        a.coding.input.len() > 0,
        decoded(p, a, false, near, IN_REQUIRED as nat, 0, b, end_marker, ok),
    ensures
        went(p, a.feed(more), near, b.feed(more), end_marker, ok),
{
    reveal(went);
}

/// Where a run of the decoder has come to.
proof fn lemma_went(
    p: Props,
    m: Machine,
    near: Option<nat>,
    limit: Option<nat>,
    n: Machine,
    end_marker: bool,
    ok: bool,
    allow_end_marker: bool,
)
    requires
        p.wf(),
        m.wf(p),
        m.coding.lack == 0,
        went(p, m, near, n, end_marker, ok),
        near is Some,
        looser(near, limit),
    ensures
        n.coding.lack > 0 ==> short(p, m, limit),
        n.coding.lack == 0 ==> {
            &&& ok ==> {
                &&& arrives(p, m, limit, n)
                &&& enough(n, near) ==> tight(p, m, limit, n)
                &&& limit is Some && n.hist.len() > limit->0 ==> fault(
                    p,
                    m,
                    limit,
                    allow_end_marker,
                    false,
                    Error::EndNotFinished,
                )
            }
            &&& !ok && end_marker ==> {
                &&& n.hist.len() < near->0
                &&& n.wf(p)
                &&& marked(p, m, limit, n)
                &&& settled(n).coding.lack == 0 ==> marked(p, m, limit, settled(n))
                &&& settled(n).coding.lack > 0 ==> short(p, m, limit)
            }
            &&& !ok && (!end_marker || !allow_end_marker) ==> fault(
                p,
                m,
                limit,
                allow_end_marker,
                false,
                Error::DistOverflow,
            )
        },
{
    reveal(went);
    if decoded(p, m, false, near, 0, -1, n, end_marker, ok) {
        if ok {
            lemma_went_well(p, m, near, limit, 0, -1, n, end_marker, allow_end_marker, false);
            if settled(n) == n {
                reveal(tight);
            }
            if n.coding.lack == 0 && limit is Some && n.hist.len() > limit->0 {
                lemma_fault_before(p, m, limit, 0, allow_end_marker, false, Error::EndNotFinished);
            }
        } else {
            lemma_failed(p, m, near, limit, 0, -1, n, end_marker, false);
            if n.coding.lack == 0 && (!end_marker || !allow_end_marker) {
                lemma_fault_before(p, m, limit, 0, allow_end_marker, false, Error::DistOverflow);
            }
        }
    } else {
        let (a, b, more) = choose|a: Machine, b: Machine, more: Seq<u8>|
            #![trigger a.feed(more), b.feed(more)]
            {
                &&& m == a.feed(more)
                &&& n == b.feed(more)
                &&& a.coding.lack == 0
                &&& a.coding.input.len() > 0
                &&& decoded(p, a, false, near, IN_REQUIRED as nat, 0, b, end_marker, ok)
            };
        assert(a.wf(p));
        if ok {
            lemma_went_well(p, a, near, limit, 20, 0, b, end_marker, allow_end_marker, false);
            lemma_arrives_feed(p, a, limit, b, more);
            if enough(b, near) {
                lemma_tight_feed(p, a, limit, b, more);
            }
            if limit is Some && b.hist.len() > limit->0 {
                lemma_fault_before(p, a, limit, 20, allow_end_marker, false, Error::EndNotFinished);
                lemma_fault_feed(p, a, limit, allow_end_marker, false, Error::EndNotFinished, more);
            }
        } else {
            lemma_failed(p, a, near, limit, 20, 0, b, end_marker, false);
            if !end_marker || !allow_end_marker {
                lemma_fault_before(p, a, limit, 20, allow_end_marker, false, Error::DistOverflow);
                lemma_fault_feed(p, a, limit, allow_end_marker, false, Error::DistOverflow, more);
            }
            if end_marker {
                lemma_marked_feed(p, a, limit, b, more);
                lemma_marked_settles(p, m, limit, n);
            }
        }
    }
}

/// A reader that was made on a source with `x` to say and has handed nothing
/// out yet.
pub open spec fn opened_on<R: Read>(
    v: ReaderView<R>,
    f: Format,
    x: Seq<u8>,
    failure: Option<R::Error>,
) -> bool {
    &&& f.opened(x)
    &&& v.format == f
    &&& v.all == x
    &&& v.failure == failure
    &&& v.rest == x.skip(f.header_len() + RC_INIT_SIZE)
    &&& v.out == Seq::<u8>::empty()
    &&& !v.ended
    &&& !v.failed
    &&& v.rest == v.buffered + v.source.remaining()
}

} // verus!
