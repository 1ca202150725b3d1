//! A stream decoder that does no input or output of its own.

use vstd::prelude::*;

use crate::decoder::{LzmaDecoder, Model};
use crate::engine::{
    first_code, goal, lemma_fault_kind, lemma_stands_chain, tail_of, InputEnd, Limits, LzmaCore,
    CARRY_CAP, IN_REQUIRED, RC_INIT_SIZE,
};
use crate::error::Error;
use crate::filter::{
    applied, lemma_settled_stable, unsettled, FilterConfig, FilterType, StreamFilter,
};
use crate::format::{
    data, lemma_first_feed, lemma_first_wf, lemma_refused_more, lemma_setup_stable, parse_header,
    refused, Format, Setup, HEADER_SIZE,
};
use crate::lz::{preset_bytes, LzDecoder, MATCH_LEN_MAX};
use crate::progress::{
    fault, lemma_arrives_feed, lemma_arrives_here, lemma_fault_chain, lemma_starved_chain,
    lemma_tight_chain, settled, starved, tight,
};
use crate::props::{
    build_decoders, props_lc, props_lp, props_pb, split_props, DICT_SIZE_MAX, PROPS_MAX,
};
use crate::symbol::Machine;

verus! {

/// How much one drain out of the dictionary moves at most.
pub const DRAIN_SIZE_MAX: usize = 4096;

/// What a caller wants of a call.
#[derive(Clone, Copy, PartialEq, Eq, Structural, Debug)]
pub enum Action {
    /// More input may follow.
    Run,
    /// This is the last of the input.
    Finish,
}

/// How a call left the stream.
#[derive(Clone, Copy, PartialEq, Eq, Structural, Debug)]
pub enum Status {
    /// There is more to do.
    Running,
    /// The stream is over, and all of it has been handed out.
    StreamEnd,
}

/// What a call did.
#[derive(Clone, Copy, PartialEq, Eq, Structural, Debug)]
pub struct StreamResult {
    pub bytes_consumed: usize,
    pub bytes_produced: usize,
    pub status: Status,
}

/// A stream as mathematics.
pub struct StreamView {
    pub format: Format,
    pub filter: Option<FilterConfig>,
    /// Every byte taken in.
    pub fed: Seq<u8>,
    /// Every byte handed out.
    pub out: Seq<u8>,
    /// The payload is over, and all of it has left the dictionary.
    pub finished: bool,
    /// Decoded bytes wait to be handed out.
    pub waiting: bool,
    /// A call has decoded what the next one is to hand out first.
    pub draining: bool,
    /// The payload ended with the input, where the caller said that nothing
    /// follows.
    pub cut: bool,
    /// What was taken in and turned out to lie behind the payload, once all of
    /// the data has been handed out.
    pub unused: Seq<u8>,
    /// A call has returned an error.
    pub failed: bool,
}

/// What has been handed out is how the data begins that the bytes taken in
/// decode to, and no more of it than its size allows.
pub open spec fn sound(v: StreamView) -> bool {
    v.out.len() == 0 || exists|n: Machine, end: bool, raw: Seq<u8>|
        #![trigger v.format.stands(v.fed, end, n), applied(v.filter, raw)]
        v.format.stands(v.fed, end, n) && sound_at(v, n, end, raw)
}

/// What has been handed out has come out of `raw`, which is how the data begins
/// that was decoded at `n`.
pub open spec fn sound_at(v: StreamView, n: Machine, end: bool, raw: Seq<u8>) -> bool {
    let s = v.format.setup(v.fed)->Ok_0;
    let all = data(s, n);
    &&& raw.is_prefix_of(all)
    &&& s.holds(raw.len())
    &&& v.out.is_prefix_of(applied(v.filter, raw))
    &&& v.out.len() + unsettled(v.filter, raw.len()) <= raw.len() || end && raw == all
}

/// What has been handed out is sound by itself.
proof fn lemma_same_sound(v: StreamView, w: StreamView)
    requires
        sound(v),
        w.format == v.format,
        w.filter == v.filter,
        w.fed == v.fed,
        w.out == v.out,
    ensures
        sound(w),
{
    if v.out.len() > 0 {
        let (n, end, raw) = choose|n: Machine, end: bool, raw: Seq<u8>|
            #![trigger v.format.stands(v.fed, end, n), applied(v.filter, raw)]
            v.format.stands(v.fed, end, n) && sound_at(v, n, end, raw);
        assert(w.format.stands(w.fed, end, n) && sound_at(w, n, end, raw));
        assert(applied(w.filter, raw) == applied(v.filter, raw));
    }
}

/// The stream is over, and all of it has been handed out. What was not used is
/// what follows the payload.
#[verifier::opaque]
pub open spec fn complete(v: StreamView) -> bool {
    exists|n: Machine| #[trigger] v.format.stands(v.fed, true, n) && complete_at(v, n)
}

/// The stream is over at `n`, and all of it has been handed out.
pub open spec fn complete_at(v: StreamView, n: Machine) -> bool {
    let s = v.format.setup(v.fed)->Ok_0;
    &&& v.out == applied(v.filter, data(s, n))
    &&& v.unused == n.coding.input
    &&& tight(s.props(), v.format.first(v.fed), s.limit(), n) || v.cut && v.unused.len() == 0
}

/// The payload in `x` comes to its end.
#[verifier::opaque]
pub open spec fn over(f: Format, x: Seq<u8>) -> bool {
    exists|n: Machine| #[trigger] f.stands(x, true, n)
}

/// The header and the first bytes of the payload in `x` are as they should be, as
/// far as they are there.
#[verifier::opaque]
pub open spec fn well_begun(f: Format, x: Seq<u8>) -> bool {
    let h = f.header_len();
    &&& x.len() >= h ==> f.setup(x) is Ok
    &&& x.len() >= h + RC_INIT_SIZE ==> f.opened(x)
}

/// Nothing of the payload in `x` is there yet, and the preset leaves no room in the
/// dictionary.
#[verifier::opaque]
pub open spec fn crowded(f: Format, x: Seq<u8>) -> bool {
    let s = f.setup(x)->Ok_0;
    &&& x.len() == f.header_len() + RC_INIT_SIZE
    &&& s.preset.len() == s.dict
}

/// All that can be told from the bytes taken in has been handed out: what is
/// left of them need not be enough for a symbol. The end of a copy that did not
/// fit the dictionary, and what the filter holds back, may still be to come.
#[verifier::opaque]
pub open spec fn caught_up(v: StreamView) -> bool {
    if v.fed.len() < v.format.header_len() + RC_INIT_SIZE {
        v.out.len() == 0
    } else {
        exists|n: Machine, raw: Seq<u8>|
            #![trigger v.format.stands(v.fed, false, n), applied(v.filter, raw)]
            v.format.stands(v.fed, false, n) && caught_up_at(v, n, raw)
    }
}

/// All that was decoded at `n` has been handed out, as far as `raw` has left the
/// dictionary, and there is more to come.
pub open spec fn caught_up_at(v: StreamView, n: Machine, raw: Seq<u8>) -> bool {
    let s = v.format.setup(v.fed)->Ok_0;
    let all = data(s, n);
    &&& n.coding.input.len() < IN_REQUIRED
    &&& raw.is_prefix_of(all)
    &&& all.len() <= raw.len() + MATCH_LEN_MAX
    &&& s.lacks(raw.len())
    &&& v.out == applied(v.filter, raw).take(raw.len() - unsettled(v.filter, raw.len()))
}

/// What a call that failed had done by then.
pub open spec fn cut_short(
    v: StreamView,
    w: StreamView,
    input: Seq<u8>,
    output0: Seq<u8>,
    output1: Seq<u8>,
) -> bool {
    let taken = w.fed.len() - v.fed.len();
    let handed = w.out.len() - v.out.len();
    &&& 0 <= taken <= input.len()
    &&& 0 <= handed <= output0.len()
    &&& w.fed == v.fed + input.take(taken)
    &&& written(v.out, w.out, output0, output1, 0, handed as usize)
}

#[derive(Clone, Copy, PartialEq, Eq, Structural)]
enum LzmaState {
    Header,
    RcInit,
    Decode,
    DrainOutput,
    Finished,
}

struct Decoders {
    lz: LzDecoder,
    lzma: LzmaDecoder,
}

/// A decoder for LZMA streams that does no input or output of its own. Call
/// `process` with an input slice and an output slice until it says that the
/// stream has ended.
pub struct LzmaStream {
    state: LzmaState,
    /// There once the parameters are known.
    decoders: Option<Decoders>,
    lzma_core: LzmaCore,
    limits: Limits,
    /// The bytes of the header, or those the range coder starts from.
    accum: Vec<u8>,
    accum_needed: usize,
    filter: Option<StreamFilter>,
    /// Decoded bytes that wait for the filter and the caller. Stays empty as
    /// long as there is no filter.
    filter_buf: Vec<u8>,
    /// How much of `filter_buf` has been handed out.
    filter_pos: usize,
    mem_limit_kb: u32,
    preset_dict: Option<Vec<u8>>,
    failed: bool,
    total_in: u64,
    total_out: u64,
    format: Ghost<Format>,
    fed: Ghost<Seq<u8>>,
    out: Ghost<Seq<u8>>,
    cut: Ghost<bool>,
}

impl View for LzmaStream {
    type V = StreamView;

    closed spec fn view(&self) -> StreamView {
        StreamView {
            format: self.format@,
            filter: self.filter_config(),
            fed: self.fed@,
            out: self.out@,
            finished: self.state == LzmaState::Finished,
            waiting: self.filter_pos + self.held() < self.filter_buf@.len() || (self.decoders is Some
                && self.decoders->0.lz@.delivered < self.decoders->0.lz@.hist.len()),
            draining: self.state == LzmaState::DrainOutput,
            cut: self.cut@,
            unused: if self.state == LzmaState::Finished && self.filter_buf@.len()
                <= self.filter_pos {
                self.lzma_core@.carry
            } else {
                Seq::empty()
            },
            failed: self.failed,
        }
    }
}

impl LzmaStream {
    closed spec fn filter_config(&self) -> Option<FilterConfig> {
        match self.filter {
            Some(f) => Some(f.config()),
            None => None,
        }
    }

    /// How many bytes the filter holds back.
    closed spec fn held(&self) -> nat {
        match self.filter {
            Some(f) => f.held(),
            None => 0,
        }
    }

    closed spec fn setup(&self) -> Setup {
        self.format@.setup(self.fed@)->Ok_0
    }

    /// What has left the dictionary.
    closed spec fn raw(&self) -> Seq<u8> {
        match self.decoders {
            Some(d) => d.lz@.hist.subrange(self.setup().preset.len() as int, d.lz@.delivered as int),
            None => Seq::empty(),
        }
    }

    /// What holds even after a failure.
    closed spec fn base_inv(&self) -> bool {
        &&& self.lzma_core.wf()
        &&& self.total_in == self.fed@.len()
        &&& self.total_out == self.out@.len()
        &&& self.filter_pos + self.held() <= self.filter_buf@.len()
        &&& self.fed@.len() == 0 ==> self.filter_buf@.len() == 0
        &&& (self.filter matches Some(f) ==> f.wf())
        &&& (self.decoders matches Some(d) ==> d.lz.wf())
    }

    /// What waits for the caller and what has been handed out is what has left
    /// the dictionary, behind the filter.
    closed spec fn filter_inv(&self) -> bool {
        &&& self.out@ + self.filter_buf@.skip(self.filter_pos as int) == applied(
            self.filter_config(),
            self.raw(),
        )
        &&& match self.filter {
            Some(f) => {
                &&& f.seen() == self.raw()
                &&& self.state != LzmaState::Finished ==> f.held() == unsettled(
                    Some(f.config()),
                    self.raw().len(),
                )
            },
            None => self.filter_buf@.len() == 0,
        }
    }

    /// The decoders are those of the parameters.
    closed spec fn decoders_inv(&self) -> bool {
        let s = self.setup();
        &&& self.decoders is Some
        &&& self.decoders->0.lz.wf()
        &&& self.decoders->0.lzma.wf()
        &&& self.decoders->0.lz@.size == s.dict
        &&& self.decoders->0.lzma@.props(s.dict) == s.props()
        &&& s.preset.is_prefix_of(self.decoders->0.lz@.hist)
        &&& s.preset.len() <= self.decoders->0.lz@.delivered
        &&& self.limits.allow_end_marker == s.allow_end_marker()
        &&& self.limits.compressed_left is None
    }

    #[verifier::opaque]
    closed spec fn inv(&self) -> bool {
        let f = self.format@;
        let h = f.header_len();
        &&& self.base_inv()
        &&& self.filter_inv()
        &&& f.wf()
        &&& match self.state {
            LzmaState::Header => {
                &&& f == (Format::File {
                    mem_limit_kb: self.mem_limit_kb,
                    preset: match self.preset_dict {
                        Some(v) => v@,
                        None => Seq::empty(),
                    },
                })
                &&& self.decoders is None
                &&& self.accum_needed == HEADER_SIZE
                &&& self.fed@.len() <= HEADER_SIZE
                &&& self.accum@ == self.fed@
                &&& self.lzma_core@.carry.len() == 0
                &&& self.filter_buf@.len() == 0
                &&& !self.limits.end_reached
                &&& self.limits.compressed_left is None
                &&& !self.cut@
            },
            LzmaState::RcInit => {
                &&& self.fed@.len() >= h
                &&& f.setup(self.fed@) is Ok
                &&& self.decoders_inv()
                &&& self.accum_needed == RC_INIT_SIZE
                &&& self.fed@.len() <= h + RC_INIT_SIZE
                &&& self.accum@ == self.fed@.skip(h as int)
                &&& self.lzma_core@.carry.len() == 0
                &&& self.filter_buf@.len() == 0
                &&& self.decoders->0.lz@.hist == self.setup().preset
                &&& self.decoders->0.lz@.pending == 0
                &&& self.decoders->0.lz@.space == self.setup().dict - self.setup().preset.len()
                &&& !self.cut@
                &&& self.decoders->0.lzma@ == Model::fresh(
                    self.setup().lc,
                    self.setup().lp,
                    self.setup().pb,
                )
                &&& self.limits.remaining_size == self.setup().size
                &&& !self.limits.end_reached
            },
            _ => {
                let d = self.decoders->0;
                let n = self.lzma_core.machine(d.lzma@, d.lz@);
                let s = self.setup();
                &&& self.decoders_inv()
                &&& f.stands(self.fed@, self.limits.end_reached, n)
                &&& self.limits.end_reached ==> tight(
                    s.props(),
                    f.first(self.fed@),
                    s.limit(),
                    n,
                ) || self.cut@ && n.coding.input.len() == 0
                &&& !self.limits.end_reached ==> !self.cut@
                &&& goal(d.lz@.hist.len(), self.limits.remaining_size) == self.setup().limit()
                &&& self.limits.end_reached ==> d.lz@.pending == 0
                &&& !self.limits.end_reached ==> {
                    &&& !d.lzma@.end_marker
                    &&& self.limits.remaining_size == 0 ==> d.lz@.pending == 0 && settled(n) == n
                }
                &&& self.state == LzmaState::Decode ==> {
                    &&& !self.limits.end_reached
                    &&& d.lz@.delivered == d.lz@.hist.len()
                    &&& d.lz@.space == 0 ==> {
                        &&& self.fed@.len() == h + RC_INIT_SIZE
                        &&& s.preset.len() == s.dict
                    }
                }
                &&& self.state == LzmaState::Finished ==> {
                    &&& self.limits.end_reached
                    &&& d.lz@.delivered == d.lz@.hist.len()
                }
            },
        }
    }

    /// A stream that has not failed stands where the bytes taken in put it.
    pub closed spec fn wf(&self) -> bool {
        &&& self.base_inv()
        &&& self.failed || self.inv()
        &&& self.state == LzmaState::Finished ==> !self.failed && self.held() == 0
    }

    fn with_parts(
        state: LzmaState,
        decoders: Option<Decoders>,
        accum_needed: usize,
        remaining_size: u64,
        mem_limit_kb: u32,
        preset_dict: Option<Vec<u8>>,
        format: Ghost<Format>,
    ) -> (s: Self)
        ensures
            s.state == state,
            s.decoders == decoders,
            s.lzma_core.wf(),
            s.lzma_core@.carry.len() == 0,
            s.limits.remaining_size == remaining_size,
            s.limits.compressed_left is None,
            s.limits.allow_end_marker == (remaining_size == u64::MAX),
            !s.limits.end_reached,
            s.accum@.len() == 0,
            s.accum_needed == accum_needed,
            s.filter is None,
            s.filter_buf@.len() == 0,
            s.filter_pos == 0,
            s.mem_limit_kb == mem_limit_kb,
            s.preset_dict == preset_dict,
            !s.failed,
            s.total_in == 0,
            s.total_out == 0,
            s.format == format,
            s.fed@ == Seq::<u8>::empty(),
            s.out@ == Seq::<u8>::empty(),
            !s.cut@,
    {
        LzmaStream {
            state,
            decoders,
            lzma_core: LzmaCore::new(),
            limits: Limits {
                remaining_size,
                compressed_left: None,
                allow_end_marker: remaining_size == u64::MAX,
                end_reached: false,
            },
            accum: Vec::new(),
            accum_needed,
            filter: None,
            filter_buf: Vec::new(),
            filter_pos: 0,
            mem_limit_kb,
            preset_dict,
            failed: false,
            total_in: 0,
            total_out: 0,
            format,
            fed: Ghost(Seq::empty()),
            out: Ghost(Seq::empty()),
            cut: Ghost(false),
        }
    }

    /// A decoder for files, with a limit on the memory in KiB and a preset
    /// dictionary, if there is one. `u32::MAX` means no limit.
    ///
    /// The header is looked at by `process`, so what is wrong with it comes
    /// out there.
    pub fn new_mem_limit(mem_limit_kb: u32, preset_dict: Option<&[u8]>) -> (s: Self)
        ensures
            s.wf(),
            s@ == fresh(Format::File { mem_limit_kb, preset: preset_bytes(preset_dict) }),
    {
        proof {
            reveal(LzmaStream::inv);
        }
        let preset: Option<Vec<u8>> = match preset_dict {
            Some(dict) => Some(tail_of(dict, 0)),
            None => None,
        };
        let ghost format = Format::File { mem_limit_kb, preset: preset_bytes(preset_dict) };
        let s = LzmaStream::with_parts(
            LzmaState::Header,
            None,
            HEADER_SIZE,
            u64::MAX,
            mem_limit_kb,
            preset,
            Ghost(format),
        );
        proof {
            if let Some(dict) = preset_dict {
                assert(dict@.skip(0) =~= dict@);
            }
            assert(s.accum@ =~= s.fed@);
            assert(s.out@ + s.filter_buf@.skip(0) =~= s.raw());
        }
        s
    }

    /// A decoder for bare payloads of `uncomp_size` bytes, `u64::MAX` for an
    /// unknown number of them, with the parameters of a properties byte.
    pub fn new_with_props(
        uncomp_size: u64,
        props: u8,
        dict_size: u32,
        preset_dict: Option<&[u8]>,
    ) -> (r: Result<Self, Error>)
        ensures
            match r {
                Ok(s) => {
                    let setup = Setup::given(
                        uncomp_size,
                        props_lc(props),
                        props_lp(props),
                        props_pb(props),
                        dict_size,
                        preset_bytes(preset_dict),
                    );
                    &&& props <= PROPS_MAX
                    &&& dict_size <= DICT_SIZE_MAX
                    &&& s.wf()
                    &&& s@ == fresh(Format::Raw { setup })
                },
                Err(e) => if props > PROPS_MAX {
                    e == Error::InvalidPropsByte
                } else {
                    dict_size > DICT_SIZE_MAX && e == Error::DictSizeTooLarge
                },
            },
    {
        proof {
            reveal(LzmaStream::inv);
        }
        match split_props(props) {
            Ok((lc, lp, pb)) => LzmaStream::new(uncomp_size, lc, lp, pb, dict_size, preset_dict),
            Err(e) => Err(e),
        }
    }

    /// A decoder for bare payloads of `uncomp_size` bytes, `u64::MAX` for an
    /// unknown number of them.
    pub fn new(
        uncomp_size: u64,
        lc: u32,
        lp: u32,
        pb: u32,
        dict_size: u32,
        preset_dict: Option<&[u8]>,
    ) -> (r: Result<Self, Error>)
        ensures
            match r {
                Ok(s) => {
                    let preset = preset_bytes(preset_dict);
                    let setup = Setup::given(uncomp_size, lc, lp, pb, dict_size, preset);
                    &&& lc <= 8 && lp <= 4 && pb <= 4
                    &&& dict_size <= DICT_SIZE_MAX
                    &&& s.wf()
                    &&& s@ == fresh(Format::Raw { setup })
                },
                Err(e) => if lc > 8 || lp > 4 || pb > 4 {
                    e == Error::InvalidLcLpPb
                } else {
                    dict_size > DICT_SIZE_MAX && e == Error::DictSizeTooLarge
                },
            },
    {
        proof {
            reveal(LzmaStream::inv);
        }
        match build_decoders(uncomp_size, lc, lp, pb, dict_size, preset_dict) {
            Ok((lz, lzma)) => {
                let ghost preset = preset_bytes(preset_dict);
                let ghost setup = Setup::given(uncomp_size, lc, lp, pb, dict_size, preset);
                let s = LzmaStream::with_parts(
                    LzmaState::RcInit,
                    Some(Decoders { lz, lzma }),
                    RC_INIT_SIZE,
                    uncomp_size,
                    u32::MAX,
                    None,
                    Ghost(Format::Raw { setup }),
                );
                proof {
                    lz.lemma_wf();
                    assert(s.accum@ =~= s.fed@.skip(0));
                    assert(s.out@ + s.filter_buf@.skip(0) =~= s.raw());
                }
                Ok(s)
            },
            Err(e) => Err(e),
        }
    }

    /// Decodes through a filter. At most one is supported, and none leaves the
    /// stream as it is. It has to be set before any input is taken in.
    pub fn set_filters(&mut self, filters: &[FilterConfig]) -> (r: Result<(), Error>)
        requires
            old(self).wf(),
        ensures
            final(self).wf(),
            final(self)@ == (StreamView {
                filter: if r is Err {
                    old(self)@.filter
                } else if filters@.len() == 0 {
                    None
                } else {
                    Some(filters@[0])
                },
                ..old(self)@
            }),
            match r {
                Ok(_) => {
                    &&& old(self)@.fed.len() == 0
                    &&& filters@.len() == 0 || filters@.len() == 1 && filters@[0].wf()
                },
                Err(e) => if old(self)@.fed.len() > 0 {
                    e == Error::FiltersAfterStart
                } else if filters@.len() > 1 {
                    e == Error::TooManyFilters
                } else {
                    filters@.len() == 1 && !filters@[0].wf() && e == (if filters@[0].filter_type
                        == FilterType::Lzma2 {
                        Error::NotAPreFilter
                    } else {
                        Error::FilterProperty
                    })
                },
            },
    {
        proof {
            reveal(LzmaStream::inv);
        }
        if self.total_in != 0 {
            return Err(Error::FiltersAfterStart);
        }
        if filters.len() > 1 {
            return Err(Error::TooManyFilters);
        }
        proof {
            if self.decoders is Some {
                self.decoders->0.lz.lemma_wf();
            }
            if !self.failed {
                assert(self.raw() =~= Seq::empty());
                assert(self.out@ =~= Seq::empty()) by {
                    assert((self.out@ + self.filter_buf@.skip(self.filter_pos as int)).len() == 0);
                }
            }
        }
        if filters.len() == 0 {
            self.filter = None;
        } else {
            match StreamFilter::new(&filters[0]) {
                Ok(f) => {
                    self.filter = Some(f);
                },
                Err(e) => {
                    return Err(e);
                },
            }
        }
        proof {
            if !self.failed {
                assert(self.raw() =~= Seq::empty());
                assert(self.out@ + self.filter_buf@.skip(self.filter_pos as int) =~= applied(
                    self.filter_config(),
                    self.raw(),
                ));
            }
        }
        Ok(())
    }

    fn filter_held_back(&self) -> (n: usize)
        requires
            self.base_inv(),
        ensures
            n == self.held(),
    {
        match &self.filter {
            Some(f) => f.held_back(),
            None => 0,
        }
    }

    /// Where the settled bytes of the staging buffer end. The last bytes of
    /// what a filter was given can change with what follows them, so those
    /// stay behind until something does or the stream ends.
    fn settled_end(&self) -> (n: usize)
        requires
            self.base_inv(),
        ensures
            n == self.filter_buf@.len() - self.held(),
    {
        self.filter_buf.len() - self.filter_held_back()
    }

    /// The two differ at most in what waits for the caller.
    spec fn same_inside(&self, other: &LzmaStream) -> bool {
        &&& self.state == other.state
        &&& self.decoders == other.decoders
        &&& self.lzma_core == other.lzma_core
        &&& self.limits == other.limits
        &&& self.accum == other.accum
        &&& self.accum_needed == other.accum_needed
        &&& self.filter == other.filter
        &&& self.mem_limit_kb == other.mem_limit_kb
        &&& self.preset_dict == other.preset_dict
        &&& self.failed == other.failed
        &&& self.total_in == other.total_in
        &&& self.format == other.format
        &&& self.fed == other.fed
        &&& self.cut == other.cut
    }

    /// Hands the settled bytes of the staging buffer to the caller.
    fn emit_filtered(&mut self, output: &mut [u8], out_pos: usize) -> (pos: usize)
        requires
            old(self).inv(),
            old(self).filter_pos + old(self).held() < old(self).filter_buf@.len(),
            out_pos < old(output)@.len(),
            old(self).total_out + (old(output)@.len() - out_pos) <= u64::MAX,
        ensures
            final(self).inv(),
            final(self).same_inside(old(self)),
            out_pos < pos <= old(output)@.len(),
            written(old(self).out@, final(self).out@, old(output)@, final(output)@, out_pos, pos),
    {
        proof {
            reveal(LzmaStream::inv);
        }
        let settled = self.settled_end();
        let waiting = settled - self.filter_pos;
        let free = output.len() - out_pos;
        let n = if waiting < free { waiting } else { free };
        let from = self.filter_pos;
        copy_into(self.filter_buf.as_slice(), from, output, out_pos, n);
        let ghost new = self.filter_buf@.subrange(from as int, from + n);
        self.total_out = self.total_out + n as u64;
        self.filter_pos = from + n;
        proof {
            self.out@ = self.out@ + new;
            assert(self.raw() == old(self).raw());
            assert(old(self).filter_buf@.skip(from as int) =~= new + self.filter_buf@.skip(from + n));
            assert(self.out@ + self.filter_buf@.skip(from + n) =~= old(self).out@
                + old(self).filter_buf@.skip(from as int));
            lemma_written(old(self).out@, new, old(output)@, output@, out_pos, (out_pos + n) as usize);
        }
        if self.filter_pos == settled {
            self.compact_filter_buf();
        }
        out_pos + n
    }

    /// Drops what the caller has taken, and keeps what is held back.
    fn compact_filter_buf(&mut self)
        requires
            old(self).inv(),
            old(self).filter_pos + old(self).held() == old(self).filter_buf@.len(),
        ensures
            final(self).inv(),
            final(self).same_inside(old(self)),
            final(self).out == old(self).out,
            final(self).total_out == old(self).total_out,
            final(self).filter_buf@ == old(self).filter_buf@.skip(old(self).filter_pos as int),
            final(self).filter_buf@.len() == old(self).held(),
            final(self).filter_pos == 0,
    {
        proof {
            reveal(LzmaStream::inv);
        }
        let from = self.filter_pos;
        self.filter_buf = tail_of(self.filter_buf.as_slice(), from);
        self.filter_pos = 0;
        proof {
            assert(self.raw() == old(self).raw());
            assert(self.filter_buf@.skip(0) =~= old(self).filter_buf@.skip(from as int));
        }
    }

    /// Where a finished drain leaves the stream: over, or back to decoding.
    fn finish_drain(&mut self)
        requires
            old(self).inv(),
            old(self).state == LzmaState::DrainOutput,
            old(self).decoders->0.lz@.delivered == old(self).decoders->0.lz@.hist.len(),
            old(self).decoders->0.lz@.space > 0,
        ensures
            final(self).inv(),
            final(self).same_but_state(old(self)),
            final(self).state == (if old(self).limits.end_reached {
                LzmaState::Finished
            } else {
                LzmaState::Decode
            }),
    {
        proof {
            reveal(LzmaStream::inv);
        }
        self.state = if self.limits.end_reached {
            LzmaState::Finished
        } else {
            LzmaState::Decode
        };
        assert(self.raw() == old(self).raw());
    }

    spec fn same_but_state(&self, other: &LzmaStream) -> bool {
        *self == (LzmaStream { state: self.state, ..*other })
    }

    /// Only the dictionary has changed, and what has left it.
    spec fn drained_from(&self, other: &LzmaStream) -> bool {
        &&& self.limits == other.limits
        &&& self.lzma_core == other.lzma_core
        &&& self.filter_config() == other.filter_config()
        &&& self.filter is Some == other.filter is Some
        &&& self.fed == other.fed
        &&& self.failed == other.failed
        &&& self.format == other.format
        &&& self.cut == other.cut
        &&& self.total_in == other.total_in
        &&& self.decoders is Some
        &&& self.decoders->0.lz@.hist == other.decoders->0.lz@.hist
        &&& self.decoders->0.lz@.delivered >= other.decoders->0.lz@.delivered
        &&& other.decoders->0.lz@.space > 0 ==> self.decoders->0.lz@.space > 0
        &&& self.state != LzmaState::DrainOutput ==> self.decoders->0.lz@.space > 0
        &&& self.state == LzmaState::DrainOutput ==> self.decoders->0.lz@.delivered
            < self.decoders->0.lz@.hist.len()
        &&& self.state == LzmaState::DrainOutput || self.state == (if self.limits.end_reached {
            LzmaState::Finished
        } else {
            LzmaState::Decode
        })
    }

    /// Hands decoded bytes straight to the caller, and says whether the
    /// dictionary ran dry before the output was full.
    fn flush_output(&mut self, output: &mut [u8], out_pos: usize) -> (r: (bool, usize))
        requires
            old(self).inv(),
            old(self).state == LzmaState::DrainOutput,
            old(self).filter is None,
            out_pos < old(output)@.len(),
            old(self).total_out + (old(output)@.len() - out_pos) <= u64::MAX,
        ensures
            final(self).inv(),
            final(self).drained_from(old(self)),
            out_pos <= r.1 <= old(output)@.len(),
            written(old(self).out@, final(self).out@, old(output)@, final(output)@, out_pos, r.1),
            r.0 == (final(self).state != LzmaState::DrainOutput),
            !r.0 ==> r.1 == old(output)@.len(),
            old(self).decoders->0.lz@.delivered == old(self).decoders->0.lz@.hist.len() ==> r.0,
            old(self).decoders->0.lz@.delivered < old(self).decoders->0.lz@.hist.len() ==> r.1
                > out_pos,
            final(self).filter_buf@.len() == 0,
    {
        proof {
            reveal(LzmaStream::inv);
        }
        let ghost before = *self;
        let (n, more) = match &mut self.decoders {
            Some(d) => {
                proof {
                    d.lz.lemma_wf();
                }
                let n = d.lz.flush_at(output, out_pos);
                (n, d.lz.has_output())
            },
            None => (0, false),
        };
        assert(output@.len() == old(output)@.len());
        assert(out_pos + n <= output.len());
        self.total_out = self.total_out + n as u64;
        proof {
            let w = before.decoders->0.lz@;
            let new = w.hist.subrange(w.delivered as int, w.delivered + n);
            self.out@ = self.out@ + new;
            assert(self.raw() =~= before.raw() + new);
            assert(self.out@ + self.filter_buf@.skip(self.filter_pos as int) =~= self.raw()) by {
                assert(before.out@ + before.filter_buf@.skip(before.filter_pos as int) =~= before.out@);
            }
            lemma_written(before.out@, new, old(output)@, output@, out_pos, (out_pos + n) as usize);
        }
        if more {
            return (false, out_pos + n);
        }
        self.finish_drain();
        (true, out_pos + n)
    }

    /// Moves decoded bytes into the staging buffer and runs the filter over
    /// them.
    fn drain_and_filter(&mut self)
        requires
            old(self).inv(),
            old(self).state == LzmaState::DrainOutput,
            old(self).filter is Some,
        ensures
            final(self).inv(),
            final(self).drained_from(old(self)),
            final(self).out == old(self).out,
            final(self).total_out == old(self).total_out,
            old(self).decoders->0.lz@.delivered == old(self).decoders->0.lz@.hist.len() ==> {
                &&& final(self).state != LzmaState::DrainOutput
                &&& final(self).held() == old(self).held()
                &&& final(self).filter_pos == old(self).filter_pos
                &&& final(self).filter_buf@ == old(self).filter_buf@
            },
            old(self).decoders->0.lz@.delivered < old(self).decoders->0.lz@.hist.len()
                && final(self).filter_pos + final(self).held() >= final(self).filter_buf@.len()
                ==> final(self).held() > old(self).held(),
    {
        proof {
            reveal(LzmaStream::inv);
        }
        let ghost before = *self;
        let start = self.settled_end();
        let (n, more) = match &mut self.decoders {
            Some(d) => {
                proof {
                    d.lz.lemma_wf();
                }
                let n = d.lz.flush_to_buf(&mut self.filter_buf, DRAIN_SIZE_MAX);
                (n, d.lz.has_output())
            },
            None => (0, false),
        };
        let ghost w = before.decoders->0.lz@;
        let ghost new = w.hist.subrange(w.delivered as int, w.delivered + n);
        let ghost raw = before.raw() + new;
        let ghost all = before.filter_buf@ + new;
        let ghost config = before.filter_config();
        proof {
            assert(self.raw() =~= raw);
            assert(self.filter_buf@ == all);
            lemma_settled_stable(config, before.raw(), new);
            lemma_settled_stable(config, raw, Seq::empty());
        }
        if n > 0 {
            let ghost k = before.raw().len() - before.held();
            proof {
                lemma_refilter(
                    config,
                    before.raw(),
                    new,
                    before.out@,
                    before.filter_buf@,
                    before.filter_pos as int,
                );
            }
            match &mut self.filter {
                Some(f) => {
                    let (head, tail) = self.filter_buf.as_mut_slice().split_at_mut(start);
                    f.decode(tail);
                },
                None => {},
            }
            assert(self.filter_buf@ == all.take(start as int) + applied(config, raw).skip(k));
        } else {
            proof {
                assert(new =~= Seq::empty());
                assert(raw =~= before.raw());
                assert(self.filter_buf@ =~= before.filter_buf@);
            }
        }
        if !more {
            self.finish_drain();
        }
    }

    /// Takes bytes in up to as many as are needed. Says whether all of them are
    /// there, and how far the input is used up.
    fn accumulate(&mut self, input: &[u8], action: Action, in_pos: usize) -> (r: Result<
        (bool, usize),
        Error,
    >)
        requires
            old(self).inv(),
            old(self).state == LzmaState::Header || old(self).state == LzmaState::RcInit,
            in_pos <= input@.len(),
            old(self).total_in + (input@.len() - in_pos) <= u64::MAX,
        ensures
            final(self).inv(),
            final(self).state == old(self).state,
            final(self).format == old(self).format,
            final(self).filter == old(self).filter,
            final(self).failed == old(self).failed,
            final(self).out == old(self).out,
            final(self).total_out == old(self).total_out,
            final(self).limits == old(self).limits,
            final(self).filter_pos == old(self).filter_pos,
            final(self).cut == old(self).cut,
            match r {
                Ok((filled, pos)) => {
                    &&& in_pos <= pos <= input@.len()
                    &&& final(self).fed@ == old(self).fed@ + input@.subrange(
                        in_pos as int,
                        pos as int,
                    )
                    &&& if filled {
                        final(self).accum@.len() == final(self).accum_needed
                    } else {
                        &&& pos == input@.len()
                        &&& action == Action::Run
                        &&& final(self).accum@.len() < final(self).accum_needed
                    }
                },
                Err(e) => {
                    &&& e == Error::UnexpectedEnd
                    &&& action == Action::Finish
                    &&& final(self).fed@ == old(self).fed@ + input@.skip(in_pos as int)
                    &&& final(self).accum@.len() < final(self).accum_needed
                },
            },
    {
        proof {
            reveal(LzmaStream::inv);
        }
        let ghost before = *self;
        let need = self.accum_needed - self.accum.len();
        let here = input.len() - in_pos;
        let n = if need < here { need } else { here };
        self.accum.extend_from_slice(&input[in_pos..in_pos + n]);
        self.total_in = self.total_in + n as u64;
        let ghost new = input@.subrange(in_pos as int, in_pos + n);
        proof {
            self.fed@ = self.fed@ + new;
            assert(self.accum@ =~= before.accum@ + new);
            if self.state == LzmaState::RcInit {
                lemma_setup_stable(self.format@, before.fed@, new);
                let h = self.format@.header_len() as int;
                assert(self.fed@.skip(h) =~= before.fed@.skip(h) + new);
                assert(self.accum@ =~= self.fed@.skip(h));
            } else {
                assert(self.accum@ =~= self.fed@);
            }
            assert(self.raw() == before.raw());
        }
        if self.accum.len() < self.accum_needed {
            return match action {
                Action::Finish => {
                    assert(new =~= input@.skip(in_pos as int));
                    Err(Error::UnexpectedEnd)
                },
                Action::Run => Ok((false, in_pos + n)),
            };
        }
        Ok((true, in_pos + n))
    }

    /// Looks at the header of a file.
    fn parse_header(&mut self) -> (r: Result<(), Error>)
        requires
            old(self).inv(),
            old(self).state == LzmaState::Header,
            old(self).accum@.len() == HEADER_SIZE,
        ensures
            final(self).format == old(self).format,
            final(self).filter == old(self).filter,
            final(self).failed == old(self).failed,
            final(self).fed == old(self).fed,
            final(self).out == old(self).out,
            final(self).total_in == old(self).total_in,
            final(self).total_out == old(self).total_out,
            final(self).filter_pos == old(self).filter_pos,
            final(self).base_inv(),
            final(self).filter_buf == old(self).filter_buf,
            final(self).cut == old(self).cut,
            match r {
                Ok(_) => final(self).inv() && final(self).state == LzmaState::RcInit,
                Err(e) => {
                    &&& refused(old(self).format@, old(self).fed@, false, e)
                    &&& *final(self) == *old(self)
                },
            },
    {
        proof {
            reveal(LzmaStream::inv);
        }
        let ghost before = *self;
        let header = match parse_header(self.accum.as_slice(), self.mem_limit_kb) {
            Ok(header) => header,
            Err(e) => {
                assert(self.format@.setup(self.fed@) == Err::<Setup, Error>(e));
                return Err(e);
            },
        };
        assert(self.format@.setup(self.fed@) is Ok);
        let preset = match &self.preset_dict {
            Some(v) => Some(v.as_slice()),
            None => None,
        };
        let (lz, lzma) = match build_decoders(
            header.uncomp_size,
            header.lc,
            header.lp,
            header.pb,
            header.dict_size,
            preset,
        ) {
            Ok(parts) => parts,
            Err(e) => {
                return Err(e);
            },
        };
        self.decoders = Some(Decoders { lz, lzma });
        self.limits.remaining_size = header.uncomp_size;
        self.limits.allow_end_marker = header.uncomp_size == u64::MAX;
        self.accum = Vec::new();
        self.accum_needed = RC_INIT_SIZE;
        self.state = LzmaState::RcInit;
        proof {
            self.decoders->0.lz.lemma_wf();
            assert(before.raw() =~= Seq::empty());
            assert(self.raw() =~= Seq::empty());
            assert(self.accum@ =~= self.fed@.skip(HEADER_SIZE as int));
        }
        Ok(())
    }

    /// Starts the range coder.
    fn init_range_coder(&mut self) -> (r: Result<(), Error>)
        requires
            old(self).inv(),
            old(self).state == LzmaState::RcInit,
            old(self).accum@.len() == RC_INIT_SIZE,
        ensures
            final(self).format == old(self).format,
            final(self).filter == old(self).filter,
            final(self).failed == old(self).failed,
            final(self).fed == old(self).fed,
            final(self).out == old(self).out,
            final(self).total_in == old(self).total_in,
            final(self).total_out == old(self).total_out,
            final(self).filter_pos == old(self).filter_pos,
            final(self).base_inv(),
            final(self).filter_buf == old(self).filter_buf,
            final(self).limits == old(self).limits,
            final(self).cut == old(self).cut,
            match r {
                Ok(_) => final(self).inv() && final(self).state == LzmaState::Decode,
                Err(e) => {
                    &&& refused(old(self).format@, old(self).fed@, false, e)
                    &&& final(self)@ == old(self)@
                    &&& final(self).state == old(self).state
                },
            },
    {
        proof {
            reveal(LzmaStream::inv);
        }
        let ghost before = *self;
        let bytes = [self.accum[0], self.accum[1], self.accum[2], self.accum[3], self.accum[4]];
        proof {
            let h = self.format@.header_len() as int;
            assert(bytes@[0] == self.fed@[h]);
            assert(first_code(bytes@) == first_code(self.fed@.skip(h)));
        }
        match self.lzma_core.init_rc(&bytes) {
            Ok(_) => {},
            Err(e) => {
                return Err(e);
            },
        }
        self.accum = Vec::new();
        self.accum_needed = 0;
        self.state = LzmaState::Decode;
        proof {
            let f = self.format@;
            let s = self.setup();
            let h = f.header_len() as int;
            let d = self.decoders->0;
            d.lz.lemma_wf();
            let n = self.lzma_core.machine(d.lzma@, d.lz@);
            assert(self.fed@.skip(h + RC_INIT_SIZE) =~= Seq::<u8>::empty());
            assert(self.lzma_core@.carry =~= Seq::<u8>::empty());
            assert(n =~= f.first(self.fed@)) by {
                assert(n.coding =~= f.first(self.fed@).coding);
            }
            lemma_arrives_here(s.props(), f.first(self.fed@), s.limit());
            assert(settled(n) == n);
            assert(self.raw() == before.raw());
        }
        Ok(())
    }

    /// Runs one decode pass. Returns how many bytes of the input were taken in,
    /// and how many were decoded into the dictionary.
    fn decode_pass(&mut self, input: &[u8], in_pos: usize, action: Action) -> (r: Result<
        (usize, usize),
        Error,
    >)
        requires
            old(self).inv(),
            old(self).state == LzmaState::Decode,
            old(self).limits.remaining_size != 0,
            old(self).decoders->0.lz@.allocated,
            old(self).decoders->0.lz@.space > 0,
            in_pos <= input@.len(),
            old(self).total_in + (input@.len() - in_pos) <= u64::MAX,
        ensures
            final(self).format == old(self).format,
            final(self).filter == old(self).filter,
            final(self).failed == old(self).failed,
            final(self).out == old(self).out,
            final(self).total_out == old(self).total_out,
            final(self).filter_pos == old(self).filter_pos,
            final(self).filter_buf == old(self).filter_buf,
            final(self).base_inv(),
            match r {
                Ok((consumed, produced)) => {
                    let w = final(self).decoders->0.lz@;
                    &&& final(self).inv()
                    &&& final(self).state == LzmaState::DrainOutput
                    &&& in_pos + consumed <= input@.len()
                    &&& final(self).fed@ == old(self).fed@ + input@.subrange(
                        in_pos as int,
                        in_pos + consumed,
                    )
                    &&& w.hist.len() - w.delivered == produced
                    &&& produced == 0 ==> w.space > 0
                    &&& produced == 0 && !final(self).limits.end_reached ==> {
                        &&& in_pos + consumed == input@.len()
                        &&& action == Action::Run
                        &&& final(self).lzma_core@.carry.len() < IN_REQUIRED
                        &&& final(self).limits.remaining_size != 0
                    }
                    &&& final(self).cut@ ==> action == Action::Finish && in_pos + consumed
                        == input@.len()
                },
                Err(e) => {
                    &&& final(self).fed == old(self).fed
                    &&& final(self).state == old(self).state
                    &&& final(self).cut == old(self).cut
                    &&& refused(
                        old(self).format@,
                        old(self).fed@ + input@.skip(in_pos as int),
                        action == Action::Finish,
                        e,
                    )
                },
            },
    {
        proof {
            reveal(LzmaStream::inv);
        }
        let ghost before = *self;
        let ghost f = self.format@;
        let ghost s = self.setup();
        let ghost m = self.lzma_core.machine(self.decoders->0.lzma@, self.decoders->0.lz@);
        let ghost first = f.first(self.fed@);
        let ghost rest = input@.skip(in_pos as int);
        let ghost finish = action == Action::Finish;
        proof {
            self.decoders->0.lz.lemma_wf();
            lemma_first_wf(f, self.fed@);
            lemma_first_feed(f, self.fed@, rest);
            lemma_arrives_feed(s.props(), first, s.limit(), m, rest);
        }
        // The caller is the only one who knows whether more input is coming.
        let input_end = match action {
            Action::Finish => InputEnd::Caller,
            Action::Run => InputEnd::More,
        };
        let fed = match &mut self.decoders {
            Some(d) => self.lzma_core.feed(
                &mut d.lz,
                &mut d.lzma,
                &input[in_pos..input.len()],
                &mut self.limits,
                input_end,
            ),
            None => Err(Error::NotInitialized),
        };
        assert(input@.subrange(in_pos as int, input@.len() as int) =~= rest);
        match fed {
            Ok((consumed, produced)) => {
                self.total_in = self.total_in + consumed as u64;
                self.state = LzmaState::DrainOutput;
                proof {
                    let new = rest.take(consumed as int);
                    self.fed@ = self.fed@ + new;
                    assert(new =~= input@.subrange(in_pos as int, in_pos + consumed));
                    lemma_first_feed(f, before.fed@, new);
                    lemma_arrives_feed(s.props(), first, s.limit(), m, new);
                    let d = self.decoders->0;
                    d.lz.lemma_wf();
                    let n = self.lzma_core.machine(d.lzma@, d.lz@);
                    lemma_stands_chain(
                        s.props(),
                        first.feed(new),
                        s.limit(),
                        s.allow_end_marker(),
                        self.limits.end_reached,
                        m.feed(new),
                        n,
                    );
                    if self.limits.end_reached {
                        if tight(s.props(), m.feed(new), s.limit(), n) {
                            lemma_tight_chain(
                                s.props(),
                                first.feed(new),
                                s.limit(),
                                m.feed(new),
                                n,
                            );
                        } else {
                            self.cut@ = true;
                        }
                    }
                    assert(self.raw() =~= before.raw());
                }
                Ok((consumed, produced))
            },
            Err(e) => {
                proof {
                    let all = first.feed(rest);
                    let a = m.feed(rest);
                    if starved(s.props(), a, s.limit()) {
                        lemma_starved_chain(s.props(), all, s.limit(), a);
                    }
                    if fault(s.props(), a, s.limit(), s.allow_end_marker(), finish, e) {
                        lemma_fault_chain(
                            s.props(),
                            all,
                            s.limit(),
                            s.allow_end_marker(),
                            finish,
                            a,
                            e,
                        );
                        lemma_fault_kind(s.props(), all, s.limit(), s.allow_end_marker(), finish, e);
                    }
                }
                Err(e)
            },
        }
    }

    fn finish_filter(&mut self)
        requires
            old(self).inv(),
            old(self).state == LzmaState::Finished,
        ensures
            final(self).inv(),
            *final(self) == (LzmaStream { filter: final(self).filter, ..*old(self) }),
            final(self).filter_config() == old(self).filter_config(),
            final(self).held() == 0,
    {
        proof {
            reveal(LzmaStream::inv);
        }
        match &mut self.filter {
            Some(f) => {
                f.finish();
            },
            None => {},
        }
        assert(self.raw() == old(self).raw());
    }

    /// How far the stream is from where a call has to stop, with everything
    /// else the same.
    spec fn rank(&self) -> int {
        let w = self.decoders->0.lz@;
        match self.state {
            LzmaState::Header => 7,
            LzmaState::RcInit => 6,
            LzmaState::Decode => if w.space == 0 {
                5
            } else {
                3
            },
            LzmaState::DrainOutput => if w.delivered < w.hist.len() {
                2
            } else {
                4
            },
            LzmaState::Finished => 1,
        }
    }

    /// Settled bytes wait in the staging buffer.
    spec fn unsent(&self) -> bool {
        self.filter_pos + self.held() < self.filter_buf@.len()
    }

    /// Whatever has been handed out is sound.
    pub proof fn lemma_sound(&self)
        requires
            self.wf(),
            !self@.failed,
        ensures
            self@.format.wf(),
            sound(self@),
    {
        self.lemma_sound_inside();
    }

    proof fn lemma_sound_inside(&self)
        requires
            self.inv(),
        ensures
            self@.format.wf(),
            sound(self@),
            self.state == LzmaState::Header || self.state == LzmaState::RcInit ==> self.out@.len()
                == 0,
    {
        reveal(LzmaStream::inv);
        if self.out@.len() > 0 {
            let d = self.decoders->0;
            let s = self.setup();
            d.lz.lemma_wf();
            let n = self.lzma_core.machine(d.lzma@, d.lz@);
            let raw = self.raw();
            lemma_settled_stable(self.filter_config(), raw, Seq::empty());
            let tail = self.filter_buf@.skip(self.filter_pos as int);
            assert((self.out@ + tail).len() == raw.len());
            assert(self.out@.is_prefix_of(self.out@ + tail));
            assert(raw.is_prefix_of(data(s, n)));
            assert(self@.format.stands(self@.fed, self.limits.end_reached, n));
            assert(applied(self@.filter, raw).len() == raw.len());
            if self.state == LzmaState::Finished {
                assert(raw =~= data(s, n));
            }
        }
    }

    /// Why a call can stop at the end of the payload.
    proof fn lemma_complete(&self)
        requires
            self.inv(),
            self.state == LzmaState::Finished,
            self.held() == 0,
            !self.unsent(),
        ensures
            complete(self@),
    {
        reveal(LzmaStream::inv);
        reveal(complete);
        let d = self.decoders->0;
        let s = self.setup();
        d.lz.lemma_wf();
        let n = self.lzma_core.machine(d.lzma@, d.lz@);
        assert(self.filter_buf@.skip(self.filter_pos as int) =~= Seq::<u8>::empty());
        assert(self.out@ + self.filter_buf@.skip(self.filter_pos as int) =~= self.out@);
        assert(self.raw() =~= data(s, n));
        assert(self@.format.stands(self@.fed, true, n));
    }

    /// Why a call can stop for want of input.
    proof fn lemma_caught_up(&self)
        requires
            self.inv(),
            !self.unsent(),
            match self.state {
                LzmaState::Header | LzmaState::RcInit => self.accum@.len() < self.accum_needed,
                LzmaState::Decode => {
                    &&& self.lzma_core@.carry.len() < IN_REQUIRED
                    &&& self.limits.remaining_size != 0
                },
                _ => false,
            },
        ensures
            caught_up(self@),
    {
        reveal(LzmaStream::inv);
        reveal(caught_up);
        if self.state == LzmaState::Decode {
            let d = self.decoders->0;
            let s = self.setup();
            d.lz.lemma_wf();
            let n = self.lzma_core.machine(d.lzma@, d.lz@);
            let raw = self.raw();
            lemma_settled_stable(self.filter_config(), raw, Seq::empty());
            let all = applied(self.filter_config(), raw);
            let tail = self.filter_buf@.skip(self.filter_pos as int);
            assert(self.out@ + tail == all);
            assert(self.out@ =~= (self.out@ + tail).take(self.out@.len() as int));
            assert(raw.len() - unsettled(self.filter_config(), raw.len()) == self.out@.len());
            assert(raw =~= d.lz@.hist.skip(s.preset.len() as int));
            assert(raw.is_prefix_of(data(s, n)));
            assert(self@.format.stands(self@.fed, false, n));
            assert(applied(self@.filter, raw).len() == raw.len());
        } else {
            if self.decoders is Some {
                self.decoders->0.lz.lemma_wf();
            }
            assert(self.raw() =~= Seq::empty());
            assert((self.out@ + self.filter_buf@.skip(self.filter_pos as int)).len() == 0);
        }
    }

    /// What a call keeps as it is.
    spec fn same_stream(&self, other: &LzmaStream) -> bool {
        &&& self.format == other.format
        &&& self.filter_config() == other.filter_config()
        &&& self.failed == other.failed
    }

    /// Makes sure that the memory for the dictionary is there, and returns how
    /// many bytes fit before what is waiting has to be handed out.
    fn prepare(&mut self) -> (space: usize)
        requires
            old(self).inv(),
            old(self).state == LzmaState::Decode,
        ensures
            final(self).inv(),
            final(self).state == LzmaState::Decode,
            final(self).same_stream(old(self)),
            final(self).fed == old(self).fed,
            final(self).out == old(self).out,
            final(self).filter_pos == old(self).filter_pos,
            final(self).filter_buf == old(self).filter_buf,
            final(self).filter == old(self).filter,
            final(self).limits == old(self).limits,
            final(self).lzma_core == old(self).lzma_core,
            final(self).total_in == old(self).total_in,
            final(self).total_out == old(self).total_out,
            final(self).cut == old(self).cut,
            final(self).decoders->0.lz@.allocated,
            space == final(self).decoders->0.lz@.space,
            final(self).decoders->0.lz@.space == old(self).decoders->0.lz@.space,
            final(self).decoders->0.lz@.delivered == old(self).decoders->0.lz@.delivered,
            final(self).decoders->0.lz@.hist == old(self).decoders->0.lz@.hist,
    {
        proof {
            reveal(LzmaStream::inv);
        }
        let space = match &mut self.decoders {
            Some(d) => {
                let made = d.lz.ensure_capacity();
                d.lz.available_space()
            },
            None => 0,
        };
        assert(self.raw() == old(self).raw());
        space
    }

    /// There is nothing left to decode, or no space to decode it to.
    fn turn_to_drain(&mut self)
        requires
            old(self).inv(),
            old(self).state == LzmaState::Decode,
        ensures
            final(self).inv(),
            final(self).state == LzmaState::DrainOutput,
            final(self).limits.end_reached == (old(self).limits.remaining_size == 0),
            *final(self) == (LzmaStream {
                state: final(self).state,
                limits: final(self).limits,
                ..*old(self)
            }),
    {
        proof {
            reveal(LzmaStream::inv);
        }
        if self.limits.remaining_size == 0 {
            self.limits.end_reached = true;
        }
        self.state = LzmaState::DrainOutput;
        proof {
            let d = self.decoders->0;
            d.lz.lemma_wf();
            reveal(tight);
            assert(self.raw() == old(self).raw());
        }
    }

    /// Takes in the header, or the bytes the range coder starts from, and looks
    /// at them. Says whether all of them were there, and how far the input is
    /// used up.
    fn open_stream(&mut self, input: &[u8], action: Action, in_pos: usize) -> (r: Result<
        (bool, usize),
        Error,
    >)
        requires
            old(self).inv(),
            old(self).state == LzmaState::Header || old(self).state == LzmaState::RcInit,
            in_pos <= input@.len(),
            old(self).total_in + (input@.len() - in_pos) <= u64::MAX,
        ensures
            final(self).base_inv(),
            final(self).same_stream(old(self)),
            final(self).out == old(self).out,
            final(self).total_out == old(self).total_out,
            final(self).state != LzmaState::Finished,
            final(self).cut == old(self).cut,
            match r {
                Ok((moved, pos)) => {
                    &&& final(self).inv()
                    &&& final(self).held() == old(self).held()
                    &&& !final(self).unsent()
                    &&& in_pos <= pos <= input@.len()
                    &&& final(self).fed@ == old(self).fed@ + input@.subrange(
                        in_pos as int,
                        pos as int,
                    )
                    &&& moved ==> {
                        &&& !final(self).limits.end_reached
                        &&& final(self).state == (if old(self).state == LzmaState::Header {
                            LzmaState::RcInit
                        } else {
                            LzmaState::Decode
                        })
                    }
                    &&& !moved ==> {
                        &&& pos == input@.len()
                        &&& action == Action::Run
                        &&& final(self).state == old(self).state
                        &&& !final(self)@.waiting
                        &&& caught_up(final(self)@)
                        &&& well_begun(final(self)@.format, final(self)@.fed)
                    }
                },
                Err(e) => {
                    let taken = final(self).fed@.len() - old(self).fed@.len();
                    &&& 0 <= taken <= input@.len() - in_pos
                    &&& final(self).fed@ == old(self).fed@ + input@.subrange(
                        in_pos as int,
                        in_pos + taken,
                    )
                    &&& refused(
                        old(self).format@,
                        old(self).fed@ + input@.skip(in_pos as int),
                        action == Action::Finish,
                        e,
                    )
                },
            },
    {
        let ghost before = *self;
        let ghost f = self.format@;
        let ghost finish = action == Action::Finish;
        proof {
            self.lemma_bounds();
        }
        let (filled, pos) = match self.accumulate(input, action, in_pos) {
            Ok(r) => r,
            Err(e) => {
                proof {
                    self.lemma_bounds();
                    self.lemma_short();
                    assert(input@.skip(in_pos as int) =~= input@.subrange(
                        in_pos as int,
                        input@.len() as int,
                    ));
                }
                return Err(e);
            },
        };
        proof {
            self.lemma_bounds();
        }
        if !filled {
            proof {
                self.lemma_short();
                self.lemma_caught_up();
            }
            return Ok((false, pos));
        }
        let ghost x = self.fed@;
        let ghost rest = input@.skip(pos as int);
        assert(x + rest =~= before.fed@ + input@.skip(in_pos as int));
        proof {
            self.lemma_needed();
        }
        let looked = match self.state {
            LzmaState::Header => self.parse_header(),
            _ => self.init_range_coder(),
        };
        match looked {
            Ok(_) => {
                proof {
                    self.lemma_bounds();
                }
                Ok((true, pos))
            },
            Err(e) => {
                proof {
                    lemma_refused_more(f, x, rest, finish, e);
                }
                Err(e)
            },
        }
    }

    /// A stream that waits for its first bytes has nothing to hand out.
    proof fn lemma_short(&self)
        requires
            self.inv(),
            self.state == LzmaState::Header || self.state == LzmaState::RcInit,
            self.accum@.len() < self.accum_needed,
        ensures
            refused(self.format@, self.fed@, true, Error::UnexpectedEnd),
            !self@.waiting,
            !self.unsent(),
            well_begun(self.format@, self.fed@),
    {
        reveal(LzmaStream::inv);
        reveal(well_begun);
        if self.decoders is Some {
            self.decoders->0.lz.lemma_wf();
        }
    }

    proof fn lemma_needed(&self)
        requires
            self.inv(),
        ensures
            self.state == LzmaState::Header ==> self.accum_needed == HEADER_SIZE,
            self.state == LzmaState::RcInit ==> self.accum_needed == RC_INIT_SIZE,
    {
        reveal(LzmaStream::inv);
    }

    /// Why there can be no space for the first byte.
    proof fn lemma_crowded(&self)
        requires
            self.inv(),
            self.state == LzmaState::Decode,
        ensures
            !self.cut@,
            self.decoders->0.lz@.space == 0 ==> crowded(self.format@, self.fed@),
    {
        reveal(LzmaStream::inv);
        reveal(crowded);
    }

    /// The first bytes of a stream that has come to its payload were as they
    /// should be.
    proof fn lemma_well_begun(&self)
        requires
            self.inv(),
            self.state != LzmaState::Header && self.state != LzmaState::RcInit,
        ensures
            well_begun(self.format@, self.fed@),
            self.decoders is Some,
            self.limits.end_reached ==> over(self.format@, self.fed@),
    {
        reveal(LzmaStream::inv);
        reveal(well_begun);
        reveal(over);
        let d = self.decoders->0;
        let n = self.lzma_core.machine(d.lzma@, d.lz@);
        assert(self@.format.stands(self@.fed, self.limits.end_reached, n));
    }

    /// A turn of a stream that decodes. Says how far the input is used up, and
    /// whether nothing at all could be done.
    fn decode_turn(&mut self, input: &[u8], action: Action, in_pos: usize) -> (r: Result<
        (usize, bool),
        Error,
    >)
        requires
            old(self).inv(),
            old(self).state == LzmaState::Decode,
            in_pos <= input@.len(),
            old(self).total_in + (input@.len() - in_pos) <= u64::MAX,
        ensures
            final(self).base_inv(),
            final(self).same_stream(old(self)),
            final(self).out == old(self).out,
            final(self).total_out == old(self).total_out,
            final(self).state != LzmaState::Finished,
            match r {
                Ok((pos, stalled)) => {
                    &&& final(self).inv()
                    &&& final(self).state == LzmaState::DrainOutput
                    &&& final(self).held() == old(self).held()
                    &&& final(self).unsent() == old(self).unsent()
                    &&& in_pos <= pos <= input@.len()
                    &&& final(self).fed@ == old(self).fed@ + input@.subrange(
                        in_pos as int,
                        pos as int,
                    )
                    &&& stalled ==> {
                        &&& pos == in_pos
                        &&& pos == input@.len()
                        &&& action == Action::Run
                        &&& final(self).lzma_core@.carry.len() < IN_REQUIRED
                        &&& !final(self).limits.end_reached
                        &&& final(self).limits.remaining_size != 0
                        &&& final(self).decoders->0.lz@.delivered
                            == final(self).decoders->0.lz@.hist.len()
                    }
                    &&& {
                        ||| pos == input@.len() && action == Action::Run
                        ||| final(self).decoders->0.lz@.delivered
                            < final(self).decoders->0.lz@.hist.len()
                        ||| final(self).limits.end_reached
                        ||| crowded(final(self)@.format, final(self)@.fed)
                    }
                    &&& final(self).cut@ ==> action == Action::Finish && pos == input@.len()
                    &&& pos == in_pos && !stalled && !final(self).limits.end_reached
                        ==> final(self).rank() < old(self).rank()
                },
                Err(e) => {
                    &&& final(self).fed == old(self).fed
                    &&& refused(
                        old(self).format@,
                        old(self).fed@ + input@.skip(in_pos as int),
                        action == Action::Finish,
                        e,
                    )
                },
            },
    {
        let ghost before = *self;
        proof {
            self.lemma_bounds();
            assert(input@.subrange(in_pos as int, in_pos as int) =~= Seq::<u8>::empty());
            assert(self.fed@ + Seq::<u8>::empty() =~= self.fed@);
        }
        let space = self.prepare();
        // Data of size zero is already over. No decode pass will ever say so.
        if self.limits.remaining_size == 0 || space == 0 {
            proof {
                self.lemma_crowded();
            }
            self.turn_to_drain();
            proof {
                self.lemma_bounds();
            }
            return Ok((in_pos, false));
        }
        match self.decode_pass(input, in_pos, action) {
            Ok((consumed, produced)) => {
                assert(in_pos + consumed <= input.len());
                let stalled = consumed == 0 && produced == 0 && !self.limits.end_reached;
                Ok((in_pos + consumed, stalled))
            },
            Err(e) => Err(e),
        }
    }

    /// A turn of a stream that hands out what it has decoded, with nothing
    /// settled left in the staging buffer. Says whether the output is full, and
    /// how far.
    fn drain_turn(&mut self, output: &mut [u8], out_pos: usize) -> (r: (bool, usize))
        requires
            old(self).inv(),
            old(self).state == LzmaState::DrainOutput,
            !old(self).unsent(),
            out_pos < old(output)@.len(),
            old(self).total_out + (old(output)@.len() - out_pos) <= u64::MAX,
        ensures
            final(self).inv(),
            final(self).same_stream(old(self)),
            final(self).fed == old(self).fed,
            final(self).total_in == old(self).total_in,
            final(self).limits == old(self).limits,
            final(self).lzma_core == old(self).lzma_core,
            final(self).cut == old(self).cut,
            final(self).state == LzmaState::DrainOutput ==> final(self).decoders->0.lz@.delivered
                < final(self).decoders->0.lz@.hist.len(),
            out_pos <= r.1 <= old(output)@.len(),
            written(old(self).out@, final(self).out@, old(output)@, final(output)@, out_pos, r.1),
            r.0 ==> r.1 == old(output)@.len() && final(self).state == LzmaState::DrainOutput,
            !r.0 && r.1 == out_pos && !final(self).unsent() ==> {
                ||| final(self).held() > old(self).held()
                ||| final(self).held() == old(self).held() && final(self).rank() < old(self).rank()
            },
            old(self).decoders->0.lz@.delivered == old(self).decoders->0.lz@.hist.len()
                && !old(self).limits.end_reached ==> final(self).state == LzmaState::Decode,
    {
        let ghost before = *self;
        proof {
            self.lemma_bounds();
        }
        if self.filter.is_some() {
            self.drain_and_filter();
            proof {
                self.lemma_bounds();
                lemma_written_none(self.out@, output@, out_pos);
            }
            (false, out_pos)
        } else {
            let (dry, pos) = self.flush_output(output, out_pos);
            proof {
                self.lemma_bounds();
            }
            (!dry, pos)
        }
    }

    #[verifier::rlimit(80)]
    fn process_inner(&mut self, input: &[u8], output: &mut [u8], action: Action) -> (r: Result<
        StreamResult,
        Error,
    >)
        requires
            old(self).inv(),
            old(self).state == LzmaState::Finished ==> old(self).held() == 0,
            old(self).total_in + input@.len() <= u64::MAX,
            old(self).total_out + old(output)@.len() <= u64::MAX,
        ensures
            final(self).base_inv(),
            final(self).same_stream(old(self)),
            old(self).state == LzmaState::Finished ==> {
                &&& r is Ok
                &&& r->Ok_0.bytes_consumed == 0
                &&& final(self)@.finished
                &&& !old(self)@.waiting ==> {
                    &&& r->Ok_0.status == Status::StreamEnd
                    &&& r->Ok_0.bytes_produced == 0
                    &&& final(self)@ == old(self)@
                    &&& final(output)@ == old(output)@
                }
            },
            match r {
                Ok(res) => {
                    &&& final(self).inv()
                    &&& final(self).state == LzmaState::Finished ==> final(self).held() == 0
                    &&& well_begun(final(self)@.format, final(self)@.fed)
                    &&& final(self)@.cut ==> {
                        ||| old(self)@.cut
                        ||| action == Action::Finish && res.bytes_consumed == input@.len()
                    }
                    &&& (res.status == Status::StreamEnd) == (final(self)@.finished
                        && !final(self)@.waiting)
                    &&& res.bytes_consumed <= input@.len()
                    &&& res.bytes_produced <= old(output)@.len()
                    &&& final(self).fed@ == old(self).fed@ + input@.take(res.bytes_consumed as int)
                    &&& written(
                        old(self).out@,
                        final(self).out@,
                        old(output)@,
                        final(output)@,
                        0,
                        res.bytes_produced,
                    )
                    &&& match res.status {
                        Status::StreamEnd => {
                            &&& final(self)@.finished
                            &&& !final(self)@.waiting
                            &&& complete(final(self)@)
                        },
                        Status::Running => {
                            &&& res.bytes_consumed == input@.len() || res.bytes_produced
                                == old(output)@.len()
                            &&& res.bytes_produced < old(output)@.len() ==> {
                                &&& action == Action::Run
                                &&& !final(self)@.finished
                                &&& !final(self)@.waiting
                                &&& caught_up(final(self)@)
                            }
                            &&& !old(self)@.draining ==> {
                                ||| res.bytes_consumed == input@.len() && action == Action::Run
                                ||| final(self)@.waiting
                                ||| over(final(self)@.format, final(self)@.fed)
                                ||| crowded(final(self)@.format, final(self)@.fed)
                            }
                        },
                    }
                },
                Err(e) => {
                    &&& final(self).state != LzmaState::Finished
                    &&& refused(
                        old(self).format@,
                        old(self).fed@ + input@,
                        action == Action::Finish,
                        e,
                    )
                    &&& sound(final(self)@)
                    &&& cut_short(old(self)@, final(self)@, input@, old(output)@, final(output)@)
                },
            },
    {
        let ghost before = *self;
        let ghost f = self.format@;
        let mut in_pos: usize = 0;
        let mut out_pos: usize = 0;
        // Set when a decode pass could make no progress at all.
        let mut stalled = false;
        proof {
            self.lemma_bounds();
            assert(input@.take(0) =~= Seq::<u8>::empty());
            assert(self.fed@ + input@.take(0) =~= self.fed@);
            assert(output@.subrange(0, 0) =~= Seq::<u8>::empty());
            assert(self.out@ + output@.subrange(0, 0) =~= self.out@);
        }
        loop
            invariant
                self.inv(),
                before.base_inv(),
                before == *old(self),
                f == before.format@,
                self.same_stream(&before),
                before.total_in + input@.len() <= u64::MAX,
                before.total_out + old(output)@.len() <= u64::MAX,
                in_pos <= input@.len(),
                out_pos <= output@.len(),
                output@.len() == old(output)@.len(),
                self.fed@ == before.fed@ + input@.take(in_pos as int),
                written(before.out@, self.out@, old(output)@, output@, 0, out_pos),
                stalled ==> {
                    &&& in_pos == input@.len()
                    &&& action == Action::Run
                    &&& self.lzma_core@.carry.len() < IN_REQUIRED
                    &&& !self.limits.end_reached
                    &&& self.limits.remaining_size != 0
                    &&& self.state == LzmaState::Decode || (self.state == LzmaState::DrainOutput
                        && self.decoders->0.lz@.delivered == self.decoders->0.lz@.hist.len())
                },
                self.cut@ ==> before.cut@ || action == Action::Finish && in_pos == input@.len(),
                before.state == LzmaState::Finished ==> {
                    &&& self.state == LzmaState::Finished
                    &&& self.held() == 0
                    &&& before.held() == 0
                    &&& in_pos == 0
                    &&& !before.unsent() ==> out_pos == 0 && *self == before && output@
                        == old(output)@
                },
                before.state != LzmaState::DrainOutput && self.state == LzmaState::DrainOutput ==> {
                    ||| in_pos == input@.len() && action == Action::Run
                    ||| self.decoders->0.lz@.delivered < self.decoders->0.lz@.hist.len()
                    ||| self.limits.end_reached
                    ||| crowded(self.format@, self.fed@)
                },
            decreases
                    output@.len() - out_pos,
                    (if self.unsent() {
                        0int
                    } else {
                        1int
                    }),
                    4 - self.held(),
                    input@.len() - in_pos,
                    (if stalled {
                        0int
                    } else {
                        1int
                    }),
                    (if self.limits.end_reached {
                        0int
                    } else {
                        1int
                    }),
                    self.rank(),
        {
            proof {
                self.lemma_bounds();
            }
            // Whatever the state, settled bytes in the staging buffer go out
            // first.
            if self.filter_pos < self.settled_end() && out_pos < output.len() {
                let ghost mid = output@;
                let ghost out = self.out@;
                let pos = self.emit_filtered(output, out_pos);
                proof {
                    lemma_written_chain(
                        before.out@,
                        out,
                        self.out@,
                        old(output)@,
                        mid,
                        output@,
                        out_pos,
                        pos,
                    );
                }
                out_pos = pos;
                continue ;
            }
            match self.state {
                LzmaState::Finished => {
                    // Nothing follows, so what the filter held back is settled.
                    self.finish_filter();
                    proof {
                        self.lemma_bounds();
                        self.lemma_well_begun();
                    }
                    if self.filter_pos < self.settled_end() {
                        if out_pos >= output.len() {
                            return Ok(
                                StreamResult {
                                    bytes_consumed: in_pos,
                                    bytes_produced: out_pos,
                                    status: Status::Running,
                                },
                            );
                        }
                        continue ;
                    }
                    proof {
                        self.lemma_complete();
                    }
                    return Ok(
                        StreamResult {
                            bytes_consumed: in_pos,
                            bytes_produced: out_pos,
                            status: Status::StreamEnd,
                        },
                    );
                },
                LzmaState::Header | LzmaState::RcInit => {
                    let ghost x = self.fed@;
                    proof {
                        self.lemma_sound_inside();
                    }
                    match self.open_stream(input, action, in_pos) {
                        Ok((moved, pos)) => {
                            proof {
                                assert(input@.take(pos as int) =~= input@.take(in_pos as int)
                                    + input@.subrange(in_pos as int, pos as int));
                                assert(self.fed@ =~= before.fed@ + input@.take(pos as int));
                            }
                            in_pos = pos;
                            if !moved {
                                return Ok(
                                    StreamResult {
                                        bytes_consumed: in_pos,
                                        bytes_produced: out_pos,
                                        status: Status::Running,
                                    },
                                );
                            }
                        },
                        Err(e) => {
                            proof {
                                let taken = self.fed@.len() - x.len();
                                assert(x + input@.skip(in_pos as int) =~= before.fed@ + input@);
                                assert(self.fed@ =~= before.fed@ + input@.take(in_pos + taken));
                            }
                            return Err(e);
                        },
                    }
                },
                LzmaState::Decode => {
                    if stalled {
                        proof {
                            self.lemma_well_begun();
                            if out_pos < output@.len() {
                                self.lemma_caught_up();
                            }
                        }
                        return Ok(
                            StreamResult {
                                bytes_consumed: in_pos,
                                bytes_produced: out_pos,
                                status: Status::Running,
                            },
                        );
                    }
                    let ghost x = self.fed@;
                    let ghost v = self@;
                    proof {
                        self.lemma_sound_inside();
                    }
                    match self.decode_turn(input, action, in_pos) {
                        Ok((pos, none)) => {
                            proof {
                                assert(input@.take(pos as int) =~= input@.take(in_pos as int)
                                    + input@.subrange(in_pos as int, pos as int));
                                assert(self.fed@ =~= before.fed@ + input@.take(pos as int));
                            }
                            in_pos = pos;
                            stalled = none;
                        },
                        Err(e) => {
                            proof {
                                assert(x + input@.skip(in_pos as int) =~= before.fed@ + input@);
                                lemma_same_sound(v, self@);
                            }
                            return Err(e);
                        },
                    }
                },
                LzmaState::DrainOutput => {
                    proof {
                        self.lemma_well_begun();
                    }
                    if out_pos >= output.len() {
                        return Ok(
                            StreamResult {
                                bytes_consumed: in_pos,
                                bytes_produced: out_pos,
                                status: Status::Running,
                            },
                        );
                    }
                    let ghost mid = output@;
                    let ghost out = self.out@;
                    let (full, pos) = self.drain_turn(output, out_pos);
                    proof {
                        lemma_written_chain(
                            before.out@,
                            out,
                            self.out@,
                            old(output)@,
                            mid,
                            output@,
                            out_pos,
                            pos,
                        );
                    }
                    out_pos = pos;
                    if full {
                        proof {
                            self.lemma_bounds();
                            self.lemma_well_begun();
                        }
                        return Ok(
                            StreamResult {
                                bytes_consumed: in_pos,
                                bytes_produced: out_pos,
                                status: Status::Running,
                            },
                        );
                    }
                },
            }
            proof {
                self.lemma_bounds();
            }
        }
    }

    /// Decodes input into output.
    ///
    /// Every call takes in the whole input unless the output filled up first or
    /// the stream ended, and once it has said that the input is not enough, all
    /// that could be told from it has been handed out. A stream that has failed
    /// stays failed.
    pub fn process(&mut self, input: &[u8], output: &mut [u8], action: Action) -> (r: Result<
        StreamResult,
        Error,
    >)
        requires
            old(self).wf(),
            old(self)@.fed.len() + input@.len() <= u64::MAX,
            old(self)@.out.len() + old(output)@.len() <= u64::MAX,
        ensures
            final(self).wf(),
            final(self)@.format == old(self)@.format,
            final(self)@.filter == old(self)@.filter,
            final(self)@.failed == (r is Err),
            r is Err ==> !final(self)@.finished && final(self)@.unused.len() == 0,
            old(self)@.failed ==> {
                &&& r == Err::<StreamResult, Error>(Error::AlreadyFailed)
                &&& final(self)@ == old(self)@
                &&& final(output)@ == old(output)@
            },
            // What is over stays over.
            old(self)@.finished ==> {
                &&& r is Ok
                &&& r->Ok_0.bytes_consumed == 0
                &&& final(self)@.finished
                &&& !old(self)@.waiting ==> {
                    &&& r->Ok_0.status == Status::StreamEnd
                    &&& r->Ok_0.bytes_produced == 0
                    &&& final(self)@ == old(self)@
                    &&& final(output)@ == old(output)@
                }
            },
            !old(self)@.failed ==> match r {
                Ok(res) => {
                    &&& well_begun(final(self)@.format, final(self)@.fed)
                    &&& final(self)@.cut ==> {
                        ||| old(self)@.cut
                        ||| action == Action::Finish && res.bytes_consumed == input@.len()
                    }
                    &&& (res.status == Status::StreamEnd) == (final(self)@.finished
                        && !final(self)@.waiting)
                    &&& res.bytes_consumed <= input@.len()
                    &&& res.bytes_produced <= old(output)@.len()
                    &&& final(self)@.fed == old(self)@.fed + input@.take(res.bytes_consumed as int)
                    &&& written(
                        old(self)@.out,
                        final(self)@.out,
                        old(output)@,
                        final(output)@,
                        0,
                        res.bytes_produced,
                    )
                    &&& sound(final(self)@)
                    &&& match res.status {
                        Status::StreamEnd => {
                            &&& final(self)@.finished
                            &&& !final(self)@.waiting
                            &&& complete(final(self)@)
                        },
                        Status::Running => {
                            &&& res.bytes_consumed == input@.len() || res.bytes_produced
                                == old(output)@.len()
                            &&& res.bytes_produced < old(output)@.len() ==> {
                                &&& action == Action::Run
                                &&& !final(self)@.finished
                                &&& !final(self)@.waiting
                                &&& caught_up(final(self)@)
                            }
                            // Also without any output a pass is made, where the
                            // last one has been handed out.
                            &&& !old(self)@.draining ==> {
                                ||| res.bytes_consumed == input@.len() && action == Action::Run
                                ||| final(self)@.waiting
                                ||| over(final(self)@.format, final(self)@.fed)
                                ||| crowded(final(self)@.format, final(self)@.fed)
                            }
                        },
                    }
                },
                Err(e) => {
                    &&& refused(
                        old(self)@.format,
                        old(self)@.fed + input@,
                        action == Action::Finish,
                        e,
                    )
                    // What came out before is how the data begins all the same.
                    &&& sound(final(self)@)
                    &&& cut_short(old(self)@, final(self)@, input@, old(output)@, final(output)@)
                },
            },
    {
        if self.failed {
            return Err(Error::AlreadyFailed);
        }
        let result = self.process_inner(input, output, action);
        if result.is_err() {
            let ghost v = self@;
            self.failed = true;
            proof {
                lemma_same_sound(v, self@);
            }
        } else {
            proof {
                self.lemma_sound();
            }
        }
        result
    }

    /// How many bytes have been taken in by all calls together.
    pub fn total_in(&self) -> (n: u64)
        requires
            self.wf(),
        ensures
            n == self@.fed.len(),
    {
        self.total_in
    }

    /// How many bytes have been handed out by all calls together.
    pub fn total_out(&self) -> (n: u64)
        requires
            self.wf(),
        ensures
            n == self@.out.len(),
    {
        self.total_out
    }

    /// Whether all of the payload has been decoded and has left the dictionary.
    pub fn is_finished(&self) -> (r: bool)
        ensures
            r == self@.finished,
    {
        match self.state {
            LzmaState::Finished => true,
            _ => false,
        }
    }

    /// Whether decoded bytes wait to be handed out.
    pub fn has_output(&self) -> (r: bool)
        requires
            self.wf(),
        ensures
            r == self@.waiting,
    {
        let inside = match &self.decoders {
            Some(d) => d.lz.has_output(),
            None => false,
        };
        inside || self.filter_pos < self.settled_end()
    }

    /// Bytes that were taken in but turned out to lie behind the payload. Only
    /// there once a call has said that the stream has ended, and never more than
    /// `CARRY_CAP`.
    ///
    /// With a known size the byte that brings the coder back above its least
    /// range counts as one of the payload.
    pub fn unused_input(&self) -> (s: &[u8])
        requires
            self.wf(),
        ensures
            s@ == self@.unused,
            s@.len() <= CARRY_CAP,
            s@.len() <= 40,
            !self@.finished || self@.waiting ==> s@.len() == 0,
    {
        if self.is_finished() && self.filter_buf.len() <= self.filter_pos {
            proof {
                self.lemma_bounds();
            }
            return self.lzma_core.unused_input();
        }
        let none: &[u8] = &[];
        assert(none@ =~= Seq::<u8>::empty());
        none
    }

    /// What a call goes by.
    proof fn lemma_bounds(&self)
        requires
            self.inv(),
        ensures
            self.base_inv(),
            self.held() <= 3,
            self.format@.wf(),
            self.state == LzmaState::Header || self.state == LzmaState::RcInit ==> {
                &&& !self.limits.end_reached
                &&& self.filter_buf@.len() == 0
            },
            self.state == LzmaState::Decode ==> {
                &&& !self.limits.end_reached
                &&& self.decoders->0.lz@.delivered == self.decoders->0.lz@.hist.len()
            },
            self.state == LzmaState::Finished ==> {
                &&& self.limits.end_reached
                &&& self.decoders->0.lz@.delivered == self.decoders->0.lz@.hist.len()
            },
            self.state == LzmaState::DrainOutput ==> self.decoders->0.lz@.delivered
                <= self.decoders->0.lz@.hist.len(),
    {
        reveal(LzmaStream::inv);
        if self.filter is Some {
            self.filter->0.lemma_held();
        }
        if self.decoders is Some {
            self.decoders->0.lz.lemma_wf();
        }
    }
}

/// The caller was handed the bytes that came out, in the output between `from`
/// and `to`.
pub open spec fn written(
    out0: Seq<u8>,
    out1: Seq<u8>,
    output0: Seq<u8>,
    output1: Seq<u8>,
    from: usize,
    to: usize,
) -> bool {
    &&& output1.len() == output0.len()
    &&& output1.take(from as int) == output0.take(from as int)
    &&& output1.skip(to as int) == output0.skip(to as int)
    &&& out1 == out0 + output1.subrange(from as int, to as int)
}

/// What came out was handed over byte by byte, and the rest of the output is as it
/// was.
pub proof fn lemma_written_is_handed_over(
    out0: Seq<u8>,
    out1: Seq<u8>,
    output0: Seq<u8>,
    output1: Seq<u8>,
    from: usize,
    to: usize,
)
    requires
        written(out0, out1, output0, output1, from, to),
        from <= to <= output0.len(),
    ensures
        output1.len() == output0.len(),
        out1.len() == out0.len() + (to - from),
        out0.is_prefix_of(out1),
        forall|i: int| from <= i < to ==> #[trigger] output1[i] == out1[out0.len() + i - from],
        forall|i: int|
            0 <= i < from || to <= i < output0.len() ==> #[trigger] output1[i] == output0[i],
{
    assert forall|i: int| 0 <= i < from || to <= i < output0.len() implies #[trigger] output1[i]
        == output0[i] by {
        if i < from {
            assert(output1.take(from as int)[i] == output0.take(from as int)[i]);
        } else {
            assert(output1.skip(to as int)[i - to] == output0.skip(to as int)[i - to]);
        }
    }
}

/// What a filter held back goes through it again together with what follows,
/// and then the staging buffer holds what it should.
proof fn lemma_refilter(
    config: Option<FilterConfig>,
    raw: Seq<u8>,
    new: Seq<u8>,
    out: Seq<u8>,
    buf: Seq<u8>,
    pos: int,
)
    requires
        0 <= pos,
        pos + unsettled(config, raw.len()) <= buf.len(),
        out + buf.skip(pos) == applied(config, raw),
    ensures
        ({
            let held = unsettled(config, raw.len()) as int;
            let start = buf.len() - held;
            let k = raw.len() - held;
            let all = buf + new;
            &&& 0 <= k
            &&& all.skip(start).take(held) == raw.skip(k)
            &&& all.skip(start).skip(held) == new
            &&& out + (all.take(start) + applied(config, raw + new).skip(k)).skip(pos) == applied(
                config,
                raw + new,
            )
        }),
{
    let held = unsettled(config, raw.len()) as int;
    let start = buf.len() - held;
    let k = raw.len() - held;
    let all = buf + new;
    let done = applied(config, raw + new);
    lemma_settled_stable(config, raw, new);
    lemma_settled_stable(config, raw + new, Seq::empty());
    assert((out + buf.skip(pos)).len() == raw.len());
    assert(buf.skip(start) =~= (out + buf.skip(pos)).skip(k));
    assert(all.skip(start).take(held) =~= buf.skip(start));
    assert(all.skip(start).skip(held) =~= new);
    assert((out + buf.skip(pos)).take(k) =~= out + buf.subrange(pos, start));
    assert((all.take(start) + done.skip(k)).skip(pos) =~= buf.subrange(pos, start) + done.skip(k));
    assert(out + (buf.subrange(pos, start) + done.skip(k)) =~= (out + buf.subrange(pos, start))
        + done.skip(k));
    assert(done =~= done.take(k) + done.skip(k));
}

pub proof fn lemma_written_none(out: Seq<u8>, output: Seq<u8>, at: usize)
    requires
        at <= output.len(),
    ensures
        written(out, out, output, output, at, at),
{
    assert(output.subrange(at as int, at as int) =~= Seq::<u8>::empty());
    assert(out + Seq::<u8>::empty() =~= out);
}

pub proof fn lemma_written_chain(
    out0: Seq<u8>,
    out1: Seq<u8>,
    out2: Seq<u8>,
    output0: Seq<u8>,
    output1: Seq<u8>,
    output2: Seq<u8>,
    mid: usize,
    to: usize,
)
    requires
        mid <= to <= output0.len(),
        written(out0, out1, output0, output1, 0, mid),
        written(out1, out2, output1, output2, mid, to),
    ensures
        written(out0, out2, output0, output2, 0, to),
{
    assert(output2.take(0) =~= output0.take(0));
    assert(output2.skip(to as int) =~= output0.skip(to as int)) by {
        assert(output1.skip(mid as int).skip(to - mid) =~= output1.skip(to as int));
        assert(output0.skip(mid as int).skip(to - mid) =~= output0.skip(to as int));
    }
    assert(output1.subrange(0, mid as int) =~= output1.take(mid as int));
    assert(output2.take(mid as int) =~= output2.subrange(0, mid as int));
    assert(output2.subrange(0, to as int) =~= output2.subrange(0, mid as int) + output2.subrange(
        mid as int,
        to as int,
    ));
    assert(out2 =~= out0 + output2.subrange(0, to as int));
}

pub proof fn lemma_written(
    out0: Seq<u8>,
    new: Seq<u8>,
    output0: Seq<u8>,
    output1: Seq<u8>,
    from: usize,
    to: usize,
)
    requires
        from <= to <= output0.len(),
        new.len() == to - from,
        output1 == output0.take(from as int) + new + output0.skip(to as int),
    ensures
        written(out0, out0 + new, output0, output1, from, to),
{
    assert(output1.take(from as int) =~= output0.take(from as int));
    assert(output1.skip(to as int) =~= output0.skip(to as int));
    assert(output1.subrange(from as int, to as int) =~= new);
}

/// Copies `n` bytes of `src` from `from` on to `dst` from `at` on.
fn copy_into(src: &[u8], from: usize, dst: &mut [u8], at: usize, n: usize)
    requires
        from + n <= src@.len(),
        at + n <= old(dst)@.len(),
    ensures
        final(dst)@ == old(dst)@.take(at as int) + src@.subrange(from as int, from + n)
            + old(dst)@.skip(at + n),
{
    let mut i: usize = 0;
    while i < n
        invariant
            i <= n,
            from + n <= src@.len(),
            at + n <= old(dst)@.len(),
            dst@ =~= old(dst)@.take(at as int) + src@.subrange(from as int, from + i)
                + old(dst)@.skip(at + i),
        decreases n - i,
    {
        assert(at + i < dst.len());
        assert(from + i < src.len());
        dst[at + i] = src[from + i];
        i = i + 1;
    }
}

/// A stream that nothing was done with yet.
pub open spec fn fresh(format: Format) -> StreamView {
    StreamView {
        format,
        filter: None,
        fed: Seq::empty(),
        out: Seq::empty(),
        finished: false,
        waiting: false,
        draining: false,
        cut: false,
        unused: Seq::empty(),
        failed: false,
    }
}

} // verus!
