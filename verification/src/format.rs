//! The formats a payload comes in, and what the bytes of one say.

use vstd::prelude::*;

use crate::coding::Coding;
use crate::decoder::Model;
use crate::engine::{first_code, goal, stands, RC_INIT_SIZE};
use crate::error::Error;
use crate::lz::preset_tail;
use crate::progress::{fault, lemma_fault_feed, starved};
use crate::props::{
    dict_for, get_memory_usage_by_props, memory_usage, props_lc, props_lp, props_pb, split_props,
    DICT_SIZE_MAX, PROPS_MAX,
};
use crate::symbol::{Machine, Props};

verus! {

/// The length of the header of a file.
pub const HEADER_SIZE: usize = 13;

/// What a payload is decoded with.
pub struct Setup {
    pub lc: u32,
    pub lp: u32,
    pub pb: u32,
    /// The size of the dictionary.
    pub dict: nat,
    /// What the dictionary is preset with.
    pub preset: Seq<u8>,
    /// The size of the data, or `u64::MAX` where an end marker tells.
    pub size: u64,
}

impl Setup {
    pub open spec fn wf(self) -> bool {
        self.props().wf()
    }

    pub open spec fn props(self) -> Props {
        Props { lc: self.lc, lp: self.lp, pb: self.pb, dict: self.dict }
    }

    /// How many bytes the dictionary has seen when the data is whole.
    pub open spec fn limit(self) -> Option<nat> {
        goal(self.preset.len(), self.size)
    }

    /// The data may be `len` bytes long.
    pub open spec fn holds(self, len: nat) -> bool {
        self.limit() matches Some(l) ==> self.preset.len() + len <= l
    }

    /// The data is longer than `len` bytes, as far as its size is known.
    pub open spec fn lacks(self, len: nat) -> bool {
        self.limit() matches Some(l) ==> self.preset.len() + len < l
    }

    /// Only data of unknown size may end with an end marker.
    pub open spec fn allow_end_marker(self) -> bool {
        self.size == u64::MAX
    }

    /// The machine at the start of a payload.
    pub open spec fn start(self, code: u32, input: Seq<u8>) -> Machine {
        let model = Model::fresh(self.lc, self.lp, self.pb);
        model.machine(
            Coding { range: 0xFFFF_FFFF, code, input, lack: 0, probs: model.probs },
            self.preset,
        )
    }

    /// The parameters as they are given, with the dictionary no larger than
    /// the data calls for.
    pub open spec fn given(
        uncomp_size: u64,
        lc: u32,
        lp: u32,
        pb: u32,
        dict_size: u32,
        preset: Seq<u8>,
    ) -> Setup {
        let dict = dict_for(uncomp_size, dict_size, preset) as nat;
        Setup { lc, lp, pb, dict, preset: preset_tail(preset, dict), size: uncomp_size }
    }
}

/// The number in four bytes of a header from `i` on, the least significant
/// first.
pub open spec fn le32(h: Seq<u8>, i: int) -> u32 {
    (h[i] + h[i + 1] * 0x100 + h[i + 2] * 0x1_0000 + h[i + 3] * 0x100_0000) as u32
}

/// The number in eight bytes of a header from `i` on, the least significant
/// first.
pub open spec fn le64(h: Seq<u8>, i: int) -> u64 {
    (le32(h, i) + le32(h, i + 4) * 0x1_0000_0000) as u64
}

/// What a header says.
pub struct Header {
    pub lc: u32,
    pub lp: u32,
    pub pb: u32,
    pub dict_size: u32,
    pub uncomp_size: u64,
}

/// Looks at a header: the properties byte, the size of the dictionary and that
/// of the data. The memory is checked before any of it is taken.
pub fn parse_header(h: &[u8], mem_limit_kb: u32) -> (r: Result<Header, Error>)
    requires
        h@.len() >= HEADER_SIZE,
    ensures
        match r {
            Ok(d) => {
                &&& d.lc <= 8 && d.lp <= 4 && d.pb <= 4
                &&& d.dict_size <= DICT_SIZE_MAX
                &&& forall|preset: Seq<u8>|
                    #![trigger (Format::File { mem_limit_kb, preset }).setup(h@)]
                    (Format::File { mem_limit_kb, preset }).setup(h@) == Ok::<Setup, Error>(
                        Setup::given(d.uncomp_size, d.lc, d.lp, d.pb, d.dict_size, preset),
                    )
            },
            Err(e) => forall|preset: Seq<u8>|
                #![trigger (Format::File { mem_limit_kb, preset }).setup(h@)]
                (Format::File { mem_limit_kb, preset }).setup(h@) == Err::<Setup, Error>(e),
        },
        r is Err ==> r->Err_0 == Error::DictSizeTooLarge || r->Err_0 == Error::InvalidPropsByte
            || r->Err_0 == Error::MemoryLimit,
{
    let props = h[0];
    let dict_size: u32 = h[1] as u32 + h[2] as u32 * 0x100 + h[3] as u32 * 0x1_0000 + h[4] as u32
        * 0x100_0000;
    let low: u32 = h[5] as u32 + h[6] as u32 * 0x100 + h[7] as u32 * 0x1_0000 + h[8] as u32
        * 0x100_0000;
    let high: u32 = h[9] as u32 + h[10] as u32 * 0x100 + h[11] as u32 * 0x1_0000 + h[12] as u32
        * 0x100_0000;
    let uncomp_size: u64 = low as u64 + high as u64 * 0x1_0000_0000;
    proof {
        assert(dict_size == le32(h@, 1));
        assert(uncomp_size == le64(h@, 5));
    }
    match get_memory_usage_by_props(dict_size, props) {
        Ok(need) => {
            if mem_limit_kb < need {
                return Err(Error::MemoryLimit);
            }
        },
        Err(e) => {
            return Err(e);
        },
    }
    match split_props(props) {
        Ok((lc, lp, pb)) => Ok(Header { lc, lp, pb, dict_size, uncomp_size }),
        Err(e) => Err(e),
    }
}

/// How a stream was opened.
pub enum Format {
    /// As a file with a header, and with a limit on the memory in KiB.
    File { mem_limit_kb: u32, preset: Seq<u8> },
    /// As a bare payload.
    Raw { setup: Setup },
}

impl Format {
    pub open spec fn wf(self) -> bool {
        self matches Format::Raw { setup } ==> setup.wf()
    }

    pub open spec fn header_len(self) -> nat {
        match self {
            Format::File { .. } => HEADER_SIZE as nat,
            Format::Raw { .. } => 0,
        }
    }

    /// What the header says, once it is there.
    pub open spec fn setup(self, x: Seq<u8>) -> Result<Setup, Error> {
        match self {
            Format::File { mem_limit_kb, preset } => {
                let (lc, lp, pb) = (props_lc(x[0]), props_lp(x[0]), props_pb(x[0]));
                let dict_size = le32(x, 1);
                if dict_size > DICT_SIZE_MAX {
                    Err(Error::DictSizeTooLarge)
                } else if x[0] > PROPS_MAX {
                    Err(Error::InvalidPropsByte)
                } else if mem_limit_kb < memory_usage(dict_size, lc, lp) {
                    Err(Error::MemoryLimit)
                } else {
                    Ok(Setup::given(le64(x, 5), lc, lp, pb, dict_size, preset))
                }
            },
            Format::Raw { setup } => Ok(setup),
        }
    }

    /// The header and the first bytes of the payload are there, and are as
    /// they should be.
    pub open spec fn opened(self, x: Seq<u8>) -> bool {
        &&& x.len() >= self.header_len() + RC_INIT_SIZE
        &&& self.setup(x) is Ok
        &&& x[self.header_len() as int] == 0
    }

    /// The machine at the start of the payload.
    pub open spec fn first(self, x: Seq<u8>) -> Machine {
        let h = self.header_len() as int;
        self.setup(x)->Ok_0.start(first_code(x.skip(h)), x.skip(h + RC_INIT_SIZE))
    }

    /// A decoder that was fed `x` can stand at `n`, at the end of the payload
    /// or somewhere along it.
    pub open spec fn stands(self, x: Seq<u8>, end: bool, n: Machine) -> bool {
        let s = self.setup(x)->Ok_0;
        &&& self.opened(x)
        &&& stands(s.props(), self.first(x), s.limit(), s.allow_end_marker(), end, n)
    }
}

/// What is wrong with a stream that was given `x`, with nothing to follow where
/// `finish` is set.
pub open spec fn refused(f: Format, x: Seq<u8>, finish: bool, e: Error) -> bool {
    let h = f.header_len();
    let s = f.setup(x)->Ok_0;
    match e {
        // It ends before the payload has begun.
        Error::UnexpectedEnd => {
            &&& finish
            &&& x.len() < h || f.setup(x) is Ok && x.len() < h + RC_INIT_SIZE
        },
        // The header is wrong, or asks for too much memory.
        Error::DictSizeTooLarge | Error::InvalidPropsByte | Error::MemoryLimit => {
            &&& x.len() >= h
            &&& f.setup(x) == Err::<Setup, Error>(e)
        },
        Error::FirstByteNotZero => {
            &&& x.len() >= h + RC_INIT_SIZE
            &&& f.setup(x) is Ok
            &&& x[h as int] != 0
        },
        // It ends within a symbol.
        Error::Truncated => {
            &&& finish
            &&& f.opened(x)
            &&& starved(s.props(), f.first(x), s.limit())
        },
        // The payload is wrong.
        _ => {
            &&& f.opened(x)
            &&& fault(s.props(), f.first(x), s.limit(), s.allow_end_marker(), finish, e)
        },
    }
}

/// What follows the header does not change what it says.
pub proof fn lemma_setup_stable(f: Format, x: Seq<u8>, more: Seq<u8>)
    requires
        x.len() >= f.header_len(),
    ensures
        f.setup(x + more) == f.setup(x),
{
}

/// What follows the first bytes of the payload is input to the same machine.
pub proof fn lemma_first_feed(f: Format, x: Seq<u8>, more: Seq<u8>)
    requires
        f.opened(x),
    ensures
        f.opened(x + more),
        f.setup(x + more) == f.setup(x),
        f.first(x + more) == f.first(x).feed(more),
{
    let h = f.header_len() as int;
    lemma_setup_stable(f, x, more);
    assert((x + more).skip(h + RC_INIT_SIZE) =~= x.skip(h + RC_INIT_SIZE) + more);
    assert(first_code((x + more).skip(h)) == first_code(x.skip(h)));
    assert(f.first(x + more).coding =~= f.first(x).feed(more).coding);
}

/// What is wrong with a stream stays wrong, whatever follows.
pub proof fn lemma_refused_more(f: Format, x: Seq<u8>, more: Seq<u8>, finish: bool, e: Error)
    requires
        refused(f, x, false, e),
        f.wf(),
    ensures
        refused(f, x + more, finish, e),
{
    if x.len() >= f.header_len() {
        lemma_setup_stable(f, x, more);
    }
    if f.opened(x) {
        let s = f.setup(x)->Ok_0;
        lemma_first_feed(f, x, more);
        lemma_first_wf(f, x);
        if fault(s.props(), f.first(x), s.limit(), s.allow_end_marker(), false, e) {
            lemma_fault_feed(
                s.props(),
                f.first(x),
                s.limit(),
                s.allow_end_marker(),
                finish,
                e,
                more,
            );
        }
    }
}

/// The machine at the start of a payload is one.
pub proof fn lemma_first_wf(f: Format, x: Seq<u8>)
    requires
        f.opened(x),
        f.wf(),
    ensures
        f.setup(x)->Ok_0.wf(),
        f.first(x).wf(f.setup(x)->Ok_0.props()),
        f.first(x).coding.lack == 0,
{
}

/// What `n` has decoded.
pub open spec fn data(s: Setup, n: Machine) -> Seq<u8> {
    n.hist.skip(s.preset.len() as int)
}

} // verus!
