//! What an encoder makes of data, a decoder turns back into it.

use vstd::arithmetic::div_mod::lemma_div_denominator;
use vstd::arithmetic::power2::{lemma2_to64, lemma_pow2_strictly_increases, pow2};
use vstd::prelude::*;

use crate::coding::{normalize, Coding};
use crate::decoder::Model;
use crate::encoder::{
    behind, coded, decisions_wf, even_odds, finds, keeps, last_range, lemma_coded_bound,
    lemma_coded_is_read, read_at, widened, Decision, Place,
};
use crate::error::Error;
use crate::filter::{applied, filtered, lemma_filter_undone};
use crate::format::{
    lemma_first_feed, lemma_first_wf, lemma_setup_stable, refused, Format, Setup,
};
use crate::input::{Read, ReadError};
use crate::laws::{
    ends_wide, exactly, lemma_complete_place, lemma_data_agrees, lemma_not_refused,
    lemma_read_place, lemma_reader_leaves_what_follows, lemma_sound_place, lemma_stands_more,
    lemma_unused_is_what_follows, lemma_whole_not_unreadable, one_byte_more, well_formed, whole,
};
use crate::locality::{lemma_copied, lemma_step};
use crate::lz::{held_back, lemma_one_held_back, lemma_preset_held, preset_tail};
use crate::progress::{
    arrives, fault, faulty, lemma_end_halts, lemma_one_halt, lemma_settled, lemma_steps, lemma_steps_chain,
    marked, may_begin, placed, reaches, settled, short, starved, steps,
};
use crate::props::{
    lemma_dict_for, lemma_dict_rounded, lemma_memory_covers, lemma_props_byte, memory_usage,
};
use crate::reader::{read_soundly, unopened_for, unread_for, unreadable, ReaderView};
use crate::spelling::{lemma_join, lemma_spelled_wf, lemma_symbol_is_read, Writer};
use crate::stream::{complete, over, sound, well_begun, StreamView};
use crate::symbol::{copied, step, Machine, Outcome, Props, Symbol};

verus! {

/// A copy is what the data repeats.
pub proof fn lemma_copy_repeats(all: Seq<u8>, pos: int, dist: int, len: nat)
    requires
        1 <= dist <= pos,
        pos + len <= all.len(),
        forall|i: int| pos <= i < pos + len ==> #[trigger] all[i] == all[i - dist],
    ensures
        copied(all.take(pos), dist - 1, len) == all.take(pos + len),
    decreases len,
{
    if len == 0 {
        assert(all.take(pos + 0) =~= all.take(pos));
    } else {
        lemma_copy_repeats(all, pos, dist, (len - 1) as nat);
        let h = all.take(pos + len - 1);
        assert(all[pos + len - 1] == all[pos + len - 1 - dist]);
        assert(h[h.len() - 1 - (dist - 1)] == all[pos + len - 1]);
        assert(h.push(all[pos + len - 1]) =~= all.take(pos + len));
    }
}

/// A decoder that reads a symbol is where the encoder is behind it.
proof fn lemma_symbol_told(w: Writer, p: Props, m: Machine, s: Symbol)
    requires
        p.wf(),
        p.dict <= 0xFFFF_FFFF,
        m.wf(p),
        w.wf(p.dict),
        w.meets(p, m),
        w.tells(p.dict, s),
        finds(m.coding, w.spelled(s)),
    ensures
        step(p, m).1 == Outcome::Done,
        step(p, m).0.coding == behind(m.coding, w.spelled(s)),
        w.next(s).wf(p.dict),
        w.next(s).meets(p, step(p, m).0),
        w.next(s).pos > w.pos,
{
    lemma_symbol_is_read(w, p, m, s);
    let n = step(p, m).0;
    let v = w.next(s);
    assert(m.reps[0] == w.reps[0] && m.reps[1] == w.reps[1] && m.reps[2] == w.reps[2] && m.reps[3]
        == w.reps[3]);
    match s {
        Symbol::Literal(b) => {
            assert(m.hist.push(b) =~= w.all.take(w.pos + 1));
            let state = w.state;
            assert(state == 0 || state == 1 || state == 2 || state == 3 || state == 4 || state == 5
                || state == 6 || state == 7 || state == 8 || state == 9 || state == 10 || state
                == 11);
        },
        Symbol::ShortRep => {
            lemma_copy_repeats(w.all, w.pos, w.reps[0], 1);
        },
        Symbol::Rep(i, len) => {
            assert(m.reps[i as int] == w.reps[i as int]);
            lemma_copy_repeats(w.all, w.pos, w.reps[i as int], len as nat);
            assert(i == 0 || i == 1 || i == 2 || i == 3);
            let r = w.reps.remove(i as int);
            assert(v.reps =~= seq![w.reps[i as int], r[0], r[1], r[2]]);
        },
        Symbol::Match(d, len) => {
            lemma_copy_repeats(w.all, w.pos, d + 1, len as nat);
            assert(v.reps =~= seq![d + 1, w.reps[0], w.reps[1], w.reps[2]]);
        },
        Symbol::EndMarker => {},
    }
}

/// The data from where the encoder is goes on as the symbols say, to its end, with
/// no copy from further back than `dict` bytes.
pub open spec fn tells_all(w: Writer, dict: nat, ss: Seq<Symbol>) -> bool
    decreases ss.len(),
{
    if ss.len() == 0 {
        w.pos == w.all.len()
    } else {
        w.tells(dict, ss[0]) && tells_all(w.next(ss[0]), dict, ss.drop_first())
    }
}

/// How they are spelled.
pub open spec fn spelled_all(w: Writer, ss: Seq<Symbol>) -> Seq<Decision>
    decreases ss.len(),
{
    if ss.len() == 0 {
        seq![]
    } else {
        w.spelled(ss[0]) + spelled_all(w.next(ss[0]), ss.drop_first())
    }
}

/// The encoder behind them.
pub open spec fn last_writer(w: Writer, ss: Seq<Symbol>) -> Writer
    decreases ss.len(),
{
    if ss.len() == 0 {
        w
    } else {
        last_writer(w.next(ss[0]), ss.drop_first())
    }
}

/// No decision gives back a byte that was lacking.
proof fn lemma_behind_lack(c: Coding, ds: Seq<Decision>)
    ensures
        behind(c, ds).lack >= c.lack,
    decreases ds.len(),
{
    if ds.len() > 0 {
        lemma_behind_lack(read_at(c, ds[0].place).0, ds.drop_first());
    }
}

/// What a dictionary of `dict` bytes has, another one has too, if it has as many
/// or all of the data.
proof fn lemma_tells_within(w: Writer, dict: nat, other: nat, s: Symbol)
    requires
        w.tells(dict, s),
        w.pos <= w.all.len(),
        dict <= other || w.all.len() <= other,
    ensures
        w.tells(other, s),
{
}

/// A decoder that finds what the encoder spelled decodes all of the data.
proof fn lemma_all_told(
    w: Writer,
    p: Props,
    m: Machine,
    limit: Option<nat>,
    dict: nat,
    ss: Seq<Symbol>,
)
    requires
        p.wf(),
        p.dict <= 0xFFFF_FFFF,
        m.wf(p),
        w.wf(p.dict),
        w.meets(p, m),
        dict <= p.dict || w.all.len() <= p.dict,
        tells_all(w, dict, ss),
        limit matches Some(l) ==> l >= w.all.len(),
        finds(m.coding, spelled_all(w, ss)),
        behind(m.coding, spelled_all(w, ss)).lack == 0,
    ensures
        steps(p, m, limit, 0, ss.len()) is Some,
        ({
            let k = steps(p, m, limit, 0, ss.len())->0;
            &&& k.coding == behind(m.coding, spelled_all(w, ss))
            &&& k.hist == w.all
            &&& last_writer(w, ss).wf(p.dict)
            &&& last_writer(w, ss).meets(p, k)
            &&& last_writer(w, ss).all == w.all
        }),
    decreases ss.len(),
{
    if ss.len() == 0 {
        assert(w.all.take(w.pos) =~= w.all);
    } else {
        let s = ss[0];
        let rest = ss.drop_first();
        let v = w.next(s);
        lemma_tells_within(w, dict, p.dict, s);
        lemma_join(m.coding, w.spelled(s), spelled_all(v, rest));
        lemma_symbol_told(w, p, m, s);
        let n = step(p, m).0;
        lemma_step(p, m, Seq::empty());
        lemma_behind_lack(m.coding, w.spelled(s));
        lemma_behind_lack(n.coding, spelled_all(v, rest));
        lemma_all_told(v, p, n, limit, dict, rest);
        assert(w.pos < w.all.len()) by {
            assert(v.pos <= v.all.len());
        }
        assert(may_begin(m, limit, 0));
        reveal_with_fuel(steps, 2);
        assert(steps(p, m, limit, 0, 1) == Some(n));
        lemma_steps_chain(p, m, limit, 0, 1, rest.len());
        assert(1 + rest.len() == ss.len());
    }
}

/// The decisions are there for every symbol.
proof fn lemma_all_wf(w: Writer, p_dict: nat, dict: nat, ss: Seq<Symbol>)
    requires
        w.wf(p_dict),
        p_dict <= 0xFFFF_FFFF,
        dict <= p_dict || w.all.len() <= p_dict,
        tells_all(w, dict, ss),
    ensures
        decisions_wf(spelled_all(w, ss), w.lc + w.lp),
        last_writer(w, ss).wf(p_dict),
        last_writer(w, ss).lc == w.lc,
        last_writer(w, ss).lp == w.lp,
    decreases ss.len(),
{
    if ss.len() > 0 {
        let s = ss[0];
        lemma_tells_within(w, dict, p_dict, s);
        lemma_spelled_wf(w, p_dict, s);
        assert(w.next(s).wf(p_dict)) by {
            let state = w.state;
            assert(state == 0 || state == 1 || state == 2 || state == 3 || state == 4 || state == 5
                || state == 6 || state == 7 || state == 8 || state == 9 || state == 10 || state
                == 11);
        }
        lemma_all_wf(w.next(s), p_dict, dict, ss.drop_first());
    }
}

/// Data as an encoder sends it.
pub struct Sent {
    pub lc: u32,
    pub lp: u32,
    pub pb: u32,
    /// How far back a copy may reach.
    pub dict_size: u32,
    /// What is there to preset the dictionary with.
    pub offered: Seq<u8>,
    /// What of it the dictionary is preset with.
    pub preset: Seq<u8>,
    pub data: Seq<u8>,
    /// The symbols that the data was cut into.
    pub symbols: Seq<Symbol>,
    /// The size that goes with it, or all ones where an end marker tells.
    pub size: u64,
    /// What follows the data.
    pub after: Option<Symbol>,
    /// What the coder comes out at.
    pub rest: int,
}

impl Sent {
    pub open spec fn writer(self) -> Writer {
        Writer {
            lc: self.lc as nat,
            lp: self.lp as nat,
            pb: self.pb as nat,
            all: self.preset + self.data,
            pos: self.preset.len() as int,
            state: 0,
            reps: seq![1int, 1, 1, 1],
        }
    }

    /// How far back a copy may really reach: as far as was said, but at least 4 KiB,
    /// and to a multiple of sixteen.
    pub open spec fn reach(self) -> int {
        let d = if self.dict_size < 4096 {
            4096
        } else {
            self.dict_size as int
        };
        (d + 15) / 16 * 16
    }

    /// The encoder behind the data.
    pub open spec fn behind_data(self) -> Writer {
        last_writer(self.writer(), self.symbols)
    }

    /// The symbols say what the data is, and no copy reaches back further than it
    /// may.
    pub open spec fn wf(self) -> bool {
        &&& self.lc <= 8 && self.lp <= 4 && self.pb <= 4
        &&& self.dict_size <= 0xFFFF_FFF0
        &&& held_back(self.preset, self.offered, self.reach() as nat)
        &&& self.data.len() <= self.size
        &&& tells_all(self.writer(), self.reach() as nat, self.symbols)
        &&& self.after matches Some(s) ==> self.behind_data().spells(s)
        &&& self.rest == 0 || 0 <= self.rest < widened(
            last_range(0xFFFF_FFFF, even_odds(), self.decisions()),
        )
    }

    /// It is sent as it should be: the data is over at its size, or behind it comes
    /// an end marker, with the coder at zero, and the size is all ones.
    pub open spec fn in_order(self) -> bool {
        &&& self.wf()
        &&& match self.after {
            None => self.data.len() == self.size < 0x8000_0000_0000_0000,
            Some(s) => s == Symbol::EndMarker && self.rest == 0 && self.size
                == 0xFFFF_FFFF_FFFF_FFFF,
        }
    }

    pub open spec fn decisions(self) -> Seq<Decision> {
        spelled_all(self.writer(), self.symbols) + (match self.after {
            None => seq![],
            Some(s) => self.behind_data().spelled(s),
        })
    }

    /// The payload: a zero, the code from its top byte on, and the bytes that follow
    /// it.
    pub open spec fn payload(self) -> Seq<u8> {
        let (code, bytes) = coded(0xFFFF_FFFF, even_odds(), self.decisions(), self.rest);
        seq![
            0u8,
            (code / 0x100_0000 % 0x100) as u8,
            (code / 0x1_0000 % 0x100) as u8,
            (code / 0x100 % 0x100) as u8,
            (code % 0x100) as u8,
        ] + bytes
    }

    /// The header of a file: the parameters in one byte, how far back a copy may
    /// reach, and the size, each from its low byte on.
    pub open spec fn header(self) -> Seq<u8> {
        let d = self.dict_size as int;
        let s = self.size as int;
        seq![
            ((self.pb * 5 + self.lp) * 9 + self.lc) as u8,
            (d % 0x100) as u8,
            (d / 0x100 % 0x100) as u8,
            (d / 0x1_0000 % 0x100) as u8,
            (d / 0x100_0000 % 0x100) as u8,
            (s % 0x100) as u8,
            (s / 0x100 % 0x100) as u8,
            (s / 0x1_0000 % 0x100) as u8,
            (s / 0x100_0000 % 0x100) as u8,
            (s / 0x1_0000_0000 % 0x100) as u8,
            (s / 0x100_0000_0000 % 0x100) as u8,
            (s / 0x1_0000_0000_0000 % 0x100) as u8,
            (s / 0x100_0000_0000_0000 % 0x100) as u8,
        ]
    }

    /// How much memory in bytes is enough for it: the dictionary, the literal
    /// coders, and a little more.
    pub open spec fn memory(self) -> int {
        self.reach() + 1536 * pow2((self.lc + self.lp) as nat) + 10 * 1024
    }

    /// `x` is what is sent to one who opens it as `f`: as a file, where the memory is
    /// enough, or as a bare payload with the parameters known.
    pub open spec fn sent_as(self, f: Format, x: Seq<u8>) -> bool {
        match f {
            Format::File { mem_limit_kb, preset } => {
                &&& preset == self.offered
                &&& 1024 * mem_limit_kb >= self.memory()
                &&& x == self.header() + self.payload()
            },
            Format::Raw { setup } => {
                &&& setup == Setup::given(
                    self.size,
                    self.lc,
                    self.lp,
                    self.pb,
                    self.dict_size,
                    self.offered,
                )
                &&& x == self.payload()
            },
        }
    }
}

/// A number is its bytes.
proof fn lemma_four_bytes(v: int)
    requires
        0 <= v < 0x1_0000_0000,
    ensures
        v == v % 0x100 + (v / 0x100 % 0x100) * 0x100 + (v / 0x1_0000 % 0x100) * 0x1_0000 + (v
            / 0x100_0000 % 0x100) * 0x100_0000,
{
    assert(v / 0x1_0000 == v / 0x100 / 0x100);
    assert(v / 0x100_0000 == v / 0x1_0000 / 0x100);
}

proof fn lemma_eight_bytes(v: int)
    requires
        0 <= v < 0x1_0000_0000_0000_0000,
    ensures
        ({
            let low = v % 0x100 + (v / 0x100 % 0x100) * 0x100 + (v / 0x1_0000 % 0x100) * 0x1_0000
                + (v / 0x100_0000 % 0x100) * 0x100_0000;
            let high = (v / 0x1_0000_0000 % 0x100) + (v / 0x100_0000_0000 % 0x100) * 0x100 + (v
                / 0x1_0000_0000_0000 % 0x100) * 0x1_0000 + (v / 0x100_0000_0000_0000 % 0x100)
                * 0x100_0000;
            &&& 0 <= low < 0x1_0000_0000
            &&& 0 <= high < 0x1_0000_0000
            &&& v == low + high * 0x1_0000_0000
        }),
{
    let h = v / 0x1_0000_0000;
    let l = v % 0x1_0000_0000;
    lemma_four_bytes(l);
    lemma_four_bytes(h);
    lemma_low_bytes(h, l);
    lemma_div_denominator(v, 0x1_0000_0000, 0x100);
    lemma_div_denominator(v, 0x1_0000_0000, 0x1_0000);
    lemma_div_denominator(v, 0x1_0000_0000, 0x100_0000);
}

/// The low bytes of a number are those of its low half.
proof fn lemma_low_bytes(h: int, l: int)
    requires
        0 <= l < 0x1_0000_0000,
        0 <= h,
    ensures
        ({
            let v = h * 0x1_0000_0000 + l;
            &&& v % 0x100 == l % 0x100
            &&& v / 0x100 % 0x100 == l / 0x100 % 0x100
            &&& v / 0x1_0000 % 0x100 == l / 0x1_0000 % 0x100
            &&& v / 0x100_0000 % 0x100 == l / 0x100_0000 % 0x100
        }),
{
    let v = h * 0x1_0000_0000 + l;
    assert(v / 0x100 == h * 0x100_0000 + l / 0x100);
    assert(v / 0x1_0000 == h * 0x1_0000 + l / 0x1_0000);
    assert(v / 0x100_0000 == h * 0x100 + l / 0x100_0000);
}

/// What a file says that is sent: everything that it was made with.
pub proof fn lemma_header_is_read(t: Sent, f: Format, x: Seq<u8>, y: Seq<u8>)
    requires
        t.wf(),
        t.sent_as(f, x),
    ensures
        f.wf(),
        f.setup(x + y) == Ok::<Setup, Error>(
            Setup::given(t.size, t.lc, t.lp, t.pb, t.dict_size, t.offered),
        ),
        x.skip(f.header_len() as int) == t.payload(),
        x.len() == f.header_len() + t.payload().len(),
{
    lemma_dict_for(t.size, t.dict_size, t.offered);
    if let Format::File { mem_limit_kb, preset } = f {
        let h = t.header();
        let z = x + y;
        lemma_props_byte(h[0], t.lc, t.lp, t.pb);
        lemma_four_bytes(t.dict_size as int);
        lemma_eight_bytes(t.size as int);
        assert(z[0] == h[0] && z[1] == h[1] && z[2] == h[2] && z[3] == h[3] && z[4] == h[4]);
        assert(z[5] == h[5] && z[6] == h[6] && z[7] == h[7] && z[8] == h[8]);
        assert(z[9] == h[9] && z[10] == h[10] && z[11] == h[11] && z[12] == h[12]);
        lemma_memory_covers(t.dict_size, t.lc, t.lp);
        lemma_dict_rounded(t.dict_size as int);
    }
    assert(x.skip(f.header_len() as int) =~= t.payload());
}

/// What a decoder makes of what is sent, with `y` behind it: it comes to all of the
/// data at `r.0`, and with what follows that the coder is `r.1`, with nothing of `y`
/// used.
#[verifier::rlimit(50)]
pub proof fn lemma_sent_is_decoded(t: Sent, f: Format, x: Seq<u8>, y: Seq<u8>) -> (r: (
    Machine,
    Coding,
))
    requires
        t.wf(),
        t.sent_as(f, x),
    ensures
        f.wf(),
        f.opened(x + y),
        ({
            let s = f.setup(x + y)->Ok_0;
            let p = s.props();
            let (k, e) = r;
            &&& s == Setup::given(t.size, t.lc, t.lp, t.pb, t.dict_size, t.offered)
            &&& s.preset == t.preset
            &&& s.limit() == (if t.size < 0x8000_0000_0000_0000 {
                Some((t.preset.len() + t.size) as nat)
            } else {
                None
            })
            &&& s.allow_end_marker() == (t.size == 0xFFFF_FFFF_FFFF_FFFF)
            &&& reaches(p, f.first(x + y), s.limit(), 0, k)
            &&& f.first(x + y).wf(p)
            &&& p.wf()
            &&& p.dict <= 0xFFFF_FFFF
            &&& p.dict == t.reach() || t.preset.len() + t.size <= p.dict < t.reach() && t.size
                < 0x8000_0000_0000_0000
            &&& k.wf(p)
            &&& k.coding.lack == 0
            &&& k.hist == t.preset + t.data
            &&& t.behind_data().wf(p.dict)
            &&& t.behind_data().meets(p, k)
            &&& t.behind_data().all == t.preset + t.data
            &&& match t.after {
                None => e == k.coding,
                Some(a) => finds(k.coding, t.behind_data().spelled(a)) && e == behind(
                    k.coding,
                    t.behind_data().spelled(a),
                ),
            }
            &&& e.wf()
            &&& e.lack == 0
            &&& t.rest == 0 ==> e.code == 0
            &&& normalize(e).lack == 0
            &&& normalize(e).code == t.rest
            &&& normalize(e).input == y
            &&& e.input.len() <= y.len() + 1
        }),
{
    let z = x + y;
    let h = f.header_len() as int;
    lemma_header_is_read(t, f, x, y);
    let s = f.setup(z)->Ok_0;
    let p = s.props();
    let limit = s.limit();
    lemma_dict_for(t.size, t.dict_size, t.offered);
    lemma_dict_rounded(t.dict_size as int);
    lemma_preset_held(t.offered, s.dict);
    lemma_preset_held(t.offered, t.reach() as nat);
    lemma_one_held_back(
        t.preset,
        preset_tail(t.offered, t.reach() as nat),
        t.offered,
        t.reach() as nat,
    );
    assert(s.preset == t.preset);
    let w = t.writer();
    let ds = t.decisions();
    let spelled = spelled_all(w, t.symbols);
    let last = t.behind_data();
    let bits = w.lc + w.lp;
    assert(t.reach() <= s.dict || w.all.len() <= s.dict);
    lemma_all_wf(w, s.dict, t.reach() as nat, t.symbols);
    if let Some(a) = t.after {
        lemma_spelled_wf(last, s.dict, a);
    }
    assert(decisions_wf(ds, bits));
    let (code, bytes) = coded(0xFFFF_FFFF, even_odds(), ds, t.rest);
    let model = Model::fresh(t.lc, t.lp, t.pb);
    let c = Coding {
        range: 0xFFFF_FFFF,
        code: code as u32,
        input: bytes + y,
        lack: 0,
        probs: model.probs,
    };
    assert(keeps(c.probs, even_odds(), bits)) by {
        assert forall|a: Place| a.wf(bits) && a != Place::Even implies c.probs[#[trigger] a.index()]
            == even_odds()[a] by {
            crate::encoder::lemma_index_bound(a, bits);
        }
    }
    assert(c.wf());
    lemma_coded_bound(c, even_odds(), ds, bits, t.rest);
    lemma_four_bytes(code);
    let first = f.first(z);
    assert(first.coding =~= c) by {
        let q = t.payload();
        assert(z.skip(h) =~= q + y);
        assert(z.skip(h + 5) =~= bytes + y);
    }
    assert(z[h] == 0) by {
        assert(z[h] == x.skip(h)[0]);
    }
    assert(f.opened(z));
    lemma_first_wf(f, z);
    lemma_coded_is_read(c, even_odds(), ds, bits, t.rest, y);
    let tail = match t.after {
        None => seq![],
        Some(a) => last.spelled(a),
    };
    lemma_join(c, spelled, tail);
    lemma_behind_lack(behind(c, spelled), tail);
    assert(w.meets(p, first)) by {
        assert(w.all.take(w.pos) =~= t.preset);
    }
    lemma_all_told(w, p, first, limit, t.reach() as nat, t.symbols);
    let k = steps(p, first, limit, 0, t.symbols.len())->0;
    assert(reaches(p, first, limit, 0, k));
    lemma_steps(p, first, limit, 0, t.symbols.len());
    (k, behind(c, ds))
}

/// What is sent in order, decoded: the place where the payload halts, and the one
/// where it ends.
proof fn lemma_sent_ends(t: Sent, f: Format, x: Seq<u8>, y: Seq<u8>) -> (r: (Machine, Machine))
    requires
        t.in_order(),
        t.sent_as(f, x),
    ensures
        f.wf(),
        f.opened(x + y),
        ({
            let s = f.setup(x + y)->Ok_0;
            let (k, n) = r;
            &&& s.preset == t.preset
            &&& reaches(s.props(), f.first(x + y), s.limit(), 0, k)
            &&& k.coding.lack == 0
            &&& t.after is None ==> s.limit() == Some(k.hist.len()) && n == k
            &&& t.after is Some ==> {
                &&& s.limit() is None
                &&& s.allow_end_marker()
                &&& step(s.props(), k) == (n, Outcome::EndMarker)
                &&& n.coding.code == 0
                &&& settled(n).coding.code == 0
            }
            &&& n.hist == t.preset + t.data
            &&& n.coding.lack == 0
            &&& n.coding.input.len() <= y.len() + 1
            &&& settled(n).coding.lack == 0
            &&& settled(n).coding.input == y
            &&& settled(settled(n)) == settled(n)
        }),
{
    let (k, e) = lemma_sent_is_decoded(t, f, x, y);
    let s = f.setup(x + y)->Ok_0;
    let p = s.props();
    if t.after is Some {
        lemma_symbol_is_read(t.behind_data(), p, k, Symbol::EndMarker);
        let n = step(p, k).0;
        lemma_settled(p, n);
        (k, n)
    } else {
        lemma_settled(p, k);
        (k, k)
    }
}

/// What is sent is a whole stream, as it should be, and no more.
pub proof fn lemma_sent_is_whole(t: Sent, f: Format, x: Seq<u8>)
    requires
        t.in_order(),
        t.sent_as(f, x),
    ensures
        f.wf(),
        well_formed(f, x),
        whole(f, x),
        exactly(f, x),
{
    let (k, n) = lemma_sent_ends(t, f, x, Seq::empty());
    assert(x + Seq::<u8>::empty() =~= x);
    let s = f.setup(x)->Ok_0;
    reveal(arrives);
    reveal(marked);
    assert(f.stands(x, true, settled(n)));
}

/// What is sent is not refused, neither while it arrives nor at its end, and no
/// reader finds anything wrong with it.
pub proof fn lemma_sent_is_taken(t: Sent, f: Format, x: Seq<u8>, more: Seq<u8>, e: Error)
    requires
        t.in_order(),
        t.sent_as(f, x + more),
    ensures
        !refused(f, x, false, e),
        !refused(f, x + more, true, e),
        !unreadable(f, x + more, e),
{
    lemma_sent_is_whole(t, f, x + more);
    lemma_not_refused(f, x, more, e);
    lemma_whole_not_unreadable(f, x + more, e);
}

proof fn lemma_prefix_skip(a: Seq<u8>, b: Seq<u8>, n: int)
    requires
        a.is_prefix_of(b),
        0 <= n <= a.len(),
    ensures
        a.skip(n).is_prefix_of(b.skip(n)),
{
    assert(a.skip(n) =~= b.skip(n).subrange(0, a.len() - n));
}

proof fn lemma_prefix_chain(a: Seq<u8>, b: Seq<u8>, c: Seq<u8>)
    requires
        a.is_prefix_of(b),
        b.is_prefix_of(c),
    ensures
        a.is_prefix_of(c),
{
    assert(a =~= c.subrange(0, a.len() as int));
}

/// As much of what is sent as has arrived comes out as the data begins.
pub proof fn lemma_sent_so_far(t: Sent, v: StreamView, more: Seq<u8>)
    requires
        t.in_order(),
        t.sent_as(v.format, v.fed + more),
        sound(v),
        v.filter is None,
    ensures
        v.out.is_prefix_of(t.data),
{
    let f = v.format;
    let none = Seq::<u8>::empty();
    let x = v.fed + more;
    let (k, n) = lemma_sent_ends(t, f, x, none);
    assert(x + none =~= x);
    if v.out.len() > 0 {
        let (a, end, raw) = lemma_sound_place(v);
        reveal(arrives);
        reveal(marked);
        assert(f.stands(x, true, settled(n)));
        lemma_setup_stable(f, v.fed, more);
        lemma_stands_more(f, v.fed, more, end, a);
        lemma_data_agrees(f, x, true, settled(n), end, a.feed(more));
        lemma_data_agrees(f, x, end, a.feed(more), true, settled(n));
        assert((t.preset + t.data).skip(t.preset.len() as int) =~= t.data);
        lemma_prefix_skip(a.hist, t.preset + t.data, t.preset.len() as int);
        lemma_prefix_chain(v.out, raw, a.hist.skip(t.preset.len() as int));
        lemma_prefix_chain(v.out, a.hist.skip(t.preset.len() as int), t.data);
    }
}

/// Whatever a reader hands out of what is sent is how the data begins.
pub proof fn lemma_sent_read_so_far<R: Read>(t: Sent, v: ReaderView<R>, x: Seq<u8>, y: Seq<u8>)
    requires
        t.in_order(),
        t.sent_as(v.format, x),
        v.all == x + y,
        read_soundly(v),
    ensures
        v.out.is_prefix_of(t.data),
{
    let f = v.format;
    let (k, n) = lemma_sent_ends(t, f, x, y);
    let a = lemma_read_place(v);
    if v.ended {
        lemma_sent_is_read(t, v, x, y);
    } else {
        reveal(arrives);
        reveal(marked);
        assert(f.stands(v.all, true, settled(n)));
        assert(f.stands(v.all, false, a));
        lemma_data_agrees(f, v.all, true, settled(n), false, a);
        lemma_data_agrees(f, v.all, false, a, true, settled(n));
        assert((t.preset + t.data).skip(t.preset.len() as int) =~= t.data);
        lemma_prefix_skip(a.hist, t.preset + t.data, t.preset.len() as int);
        lemma_prefix_chain(v.out, a.hist.skip(t.preset.len() as int), t.data);
    }
}

/// What was sent comes out of a stream: all of the data, and nothing else. What
/// follows is not used, and but for what `ends_wide` says nothing else is left.
pub proof fn lemma_sent_is_streamed(t: Sent, v: StreamView, x: Seq<u8>, y: Seq<u8>)
    requires
        t.in_order(),
        t.sent_as(v.format, x),
        v.fed == x + y,
        complete(v),
    ensures
        v.out == applied(v.filter, t.data),
        v.filter is None ==> v.out == t.data,
        v.unused == y || ends_wide(v.format, v.fed) && one_byte_more(x, y, v.unused),
{
    let f = v.format;
    let (k, n) = lemma_sent_ends(t, f, x, y);
    let s = f.setup(v.fed)->Ok_0;
    reveal(arrives);
    reveal(marked);
    assert(f.stands(v.fed, true, settled(n)));
    let a = lemma_complete_place(v);
    lemma_data_agrees(f, v.fed, true, a, true, settled(n));
    lemma_sent_is_whole(t, f, x);
    lemma_unused_is_what_follows(v, x, y);
    assert((t.preset + t.data).skip(t.preset.len() as int) =~= t.data);
}

/// Data that was run through a filter before it was sent comes out of a stream
/// with that filter as it was.
pub proof fn lemma_filtered_is_streamed(
    t: Sent,
    v: StreamView,
    x: Seq<u8>,
    y: Seq<u8>,
    original: Seq<u8>,
)
    requires
        t.in_order(),
        t.sent_as(v.format, x),
        v.fed == x + y,
        complete(v),
        v.filter matches Some(filter) && filter.wf() && filtered(filter, original, t.data),
    ensures
        v.out == original,
{
    lemma_sent_is_streamed(t, v, x, y);
    lemma_filter_undone(v.filter->0, original, t.data);
}

/// What was sent comes out of a reader that has come to the end.
pub proof fn lemma_sent_is_read<R: Read>(t: Sent, v: ReaderView<R>, x: Seq<u8>, y: Seq<u8>)
    requires
        t.in_order(),
        t.sent_as(v.format, x),
        v.all == x + y,
        v.ended,
        read_soundly(v),
    ensures
        v.out == t.data,
        v.rest == y || ends_wide(v.format, v.all) && one_byte_more(x, y, v.rest),
{
    let f = v.format;
    let (k, n) = lemma_sent_ends(t, f, x, y);
    let s = f.setup(v.all)->Ok_0;
    let a = lemma_read_place(v);
    lemma_sent_is_whole(t, f, x);
    lemma_reader_leaves_what_follows(v, x, y);
    lemma_first_wf(f, v.all);
    reveal(arrives);
    reveal(marked);
    let p = s.props();
    let m = f.first(v.all);
    assert(placed(p, m, s.limit(), true, settled(n)));
    let i = lemma_end_halts(p, m, s.limit(), a);
    let j = lemma_end_halts(p, m, s.limit(), settled(n));
    lemma_one_halt(p, m, s.limit(), i, j);
    lemma_step(p, i, Seq::empty());
    assert((t.preset + t.data).skip(t.preset.len() as int) =~= t.data);
}

/// Up to any number of symbols, a decoder of the first part of a payload either is
/// where one of all of it is, or has come to a symbol that is not there as a whole.
proof fn lemma_up_to_the_cut(
    p: Props,
    m: Machine,
    limit: Option<nat>,
    c: nat,
    more: Seq<u8>,
)
    requires
        p.wf(),
        m.wf(p),
        m.coding.lack == 0,
        steps(p, m.feed(more), limit, 0, c) is Some,
    ensures
        starved(p, m, limit) || {
            let j = steps(p, m, limit, 0, c);
            &&& j is Some
            &&& j->0.coding.lack == 0
            &&& j->0.wf(p)
            &&& steps(p, m.feed(more), limit, 0, c) == Some(j->0.feed(more))
        },
    decreases c,
{
    if c > 0 {
        let b = (c - 1) as nat;
        lemma_up_to_the_cut(p, m, limit, b, more);
        if !starved(p, m, limit) {
            reveal(starved);
            let j = steps(p, m, limit, 0, b)->0;
            lemma_step(p, j, more);
            assert(reaches(p, m, limit, 0, j));
        }
    }
}

/// What is sent is refused where it is cut short, by more than the byte that may be
/// there only to bring the coder back above its least range.
pub proof fn lemma_cut_is_refused(t: Sent, f: Format, x: Seq<u8>, y: Seq<u8>)
    requires
        t.in_order(),
        t.sent_as(f, x + y),
        y.len() >= 2,
    ensures
        ({
            let opened = x.len() >= f.header_len() + 5;
            &&& !opened ==> refused(f, x, true, Error::UnexpectedEnd)
            &&& opened ==> refused(f, x, true, Error::Truncated)
            &&& opened ==> unreadable(f, x, Error::UnexpectedEnd)
        }),
{
    let none = Seq::<u8>::empty();
    let (k, n) = lemma_sent_ends(t, f, x + y, none);
    assert(x + y + none =~= x + y);
    if x.len() >= f.header_len() {
        lemma_setup_stable(f, x, y);
    }
    if x.len() >= f.header_len() + 5 {
        assert((x + y)[f.header_len() as int] == x[f.header_len() as int]);
        lemma_first_feed(f, x, y);
        lemma_first_wf(f, x);
        let s = f.setup(x)->Ok_0;
        let p = s.props();
        let limit = s.limit();
        let m = f.first(x);
        let c = choose|c: nat| #[trigger] steps(p, m.feed(y), limit, 0, c) == Some(k);
        lemma_up_to_the_cut(p, m, limit, c, y);
        if !starved(p, m, limit) {
            reveal(starved);
            let j = steps(p, m, limit, 0, c)->0;
            assert(reaches(p, m, limit, 0, j));
            lemma_step(p, j, y);
        }
        assert(starved(p, m, limit));
        assert(short(p, m, limit)) by {
            reveal(starved);
            reveal(short);
        }
    }
}

/// What a reader finds wrong with what is sent and cut short is that bytes are
/// missing. Where the source failed, that comes back as it was.
pub proof fn lemma_cut_is_unread<E>(
    t: Sent,
    f: Format,
    x: Seq<u8>,
    y: Seq<u8>,
    failure: Option<E>,
    e: ReadError<E>,
)
    requires
        t.in_order(),
        t.sent_as(f, x + y),
        unread_for(f, x, failure, e),
    ensures
        failure matches Some(s) ==> e == ReadError::<E>::Source(s),
        failure is None ==> e == ReadError::<E>::Data(Error::UnexpectedEnd),
{
    if let ReadError::Data(d) = e {
        lemma_sent_is_taken(t, f, x, y, d);
    }
}

/// A reader that cannot be opened on what is sent and cut short says that bytes are
/// missing, or gives back what the source failed with.
pub proof fn lemma_cut_is_unopened<E>(
    t: Sent,
    f: Format,
    x: Seq<u8>,
    y: Seq<u8>,
    failure: Option<E>,
    e: ReadError<E>,
)
    requires
        t.in_order(),
        t.sent_as(f, x + y),
        unopened_for(f, x, failure, e),
    ensures
        x.len() < f.header_len() + 5,
        failure matches Some(s) ==> e == ReadError::<E>::Source(s),
        failure is None ==> e == ReadError::<E>::Data(Error::UnexpectedEnd),
{
    lemma_sent_is_whole(t, f, x + y);
    if x.len() >= f.header_len() {
        lemma_setup_stable(f, x, y);
    }
    if x.len() >= f.header_len() + 5 {
        assert((x + y)[f.header_len() as int] == x[f.header_len() as int]);
    }
    if let ReadError::Data(d) = e {
        lemma_sent_is_taken(t, f, x, y, d);
    }
}

/// A call that went well has found nothing wrong with the header or with how the
/// payload begins.
pub proof fn lemma_well_begun_is_not_refused(f: Format, x: Seq<u8>, e: Error)
    requires
        well_begun(f, x),
        e is DictSizeTooLarge || e is InvalidPropsByte || e is MemoryLimit || e
            is FirstByteNotZero,
    ensures
        !refused(f, x, false, e),
        !refused(f, x, true, e),
{
    reveal(well_begun);
}

/// What is sent is over when it is there as a whole, and not where it is cut short by
/// more than its last byte.
pub proof fn lemma_sent_is_over(t: Sent, f: Format, x: Seq<u8>, y: Seq<u8>)
    requires
        t.in_order(),
        t.sent_as(f, x + y),
    ensures
        over(f, x + y),
        y.len() >= 2 ==> !over(f, x),
{
    let none = Seq::<u8>::empty();
    let (k, n) = lemma_sent_ends(t, f, x + y, none);
    assert(x + y + none =~= x + y);
    reveal(over);
    reveal(arrives);
    reveal(marked);
    assert(f.stands(x + y, true, settled(n)));
    if y.len() >= 2 && over(f, x) {
        let a = choose|a: Machine| #[trigger] f.stands(x, true, a);
        lemma_stands_more(f, x, y, true, a);
        lemma_setup_stable(f, x, y);
        lemma_first_wf(f, x + y);
        let s = f.setup(x + y)->Ok_0;
        let p = s.props();
        let m = f.first(x + y);
        let i = lemma_end_halts(p, m, s.limit(), a.feed(y));
        lemma_one_halt(p, m, s.limit(), i, k);
        lemma_step(p, i, Seq::empty());
        lemma_settled(p, n);
    }
}

/// The distance that a symbol copies from.
pub open spec fn copy_distance(w: Writer, s: Symbol) -> int {
    match s {
        Symbol::ShortRep => w.reps[0],
        Symbol::Rep(i, _) => w.reps[i as int],
        Symbol::Match(d, _) => d + 1,
        _ => 0,
    }
}

/// The place where what was sent goes wrong.
proof fn lemma_fault_here(f: Format, x: Seq<u8>, k: Machine, finish: bool, e: Error)
    requires
        f.opened(x),
        ({
            let s = f.setup(x)->Ok_0;
            &&& reaches(s.props(), f.first(x), s.limit(), 0, k)
            &&& faulty(s.props(), k, s.limit(), s.allow_end_marker(), false, e)
        }),
        e == Error::DistOverflow || e == Error::EndNotFinished || e == Error::NotTerminated,
    ensures
        refused(f, x, finish, e),
        e != Error::NotTerminated ==> unreadable(f, x, e),
{
    reveal(fault);
    let s = f.setup(x)->Ok_0;
    assert(faulty(s.props(), k, s.limit(), s.allow_end_marker(), finish, e));
}

/// A copy from before all data, or from further back than one may reach, is refused.
pub proof fn lemma_far_copy_is_refused(t: Sent, f: Format, x: Seq<u8>, y: Seq<u8>, finish: bool)
    requires
        t.wf(),
        t.sent_as(f, x),
        t.data.len() < t.size,
        t.after matches Some(s) && {
            let dist = copy_distance(t.behind_data(), s);
            dist > t.preset.len() + t.data.len() || dist > t.reach()
        },
    ensures
        refused(f, x + y, finish, Error::DistOverflow),
        unreadable(f, x + y, Error::DistOverflow),
{
    let (k, e) = lemma_sent_is_decoded(t, f, x, y);
    let s = f.setup(x + y)->Ok_0;
    let w = t.behind_data();
    let a = t.after->0;
    lemma_symbol_is_read(w, s.props(), k, a);
    assert(k.reps[0] == w.reps[0] && k.reps[1] == w.reps[1] && k.reps[2] == w.reps[2] && k.reps[3]
        == w.reps[3]);
    if let Symbol::Rep(i, _) = a {
        assert(i == 0 || i == 1 || i == 2 || i == 3);
    }
    assert(step(s.props(), k).1 == Outcome::Overflow);
    lemma_fault_here(f, x + y, k, finish, Error::DistOverflow);
}

/// An end marker is refused where the size is not all ones.
pub proof fn lemma_marker_is_refused(t: Sent, f: Format, x: Seq<u8>, y: Seq<u8>, finish: bool)
    requires
        t.wf(),
        t.sent_as(f, x),
        t.data.len() < t.size < 0xFFFF_FFFF_FFFF_FFFF,
        t.after == Some(Symbol::EndMarker),
    ensures
        refused(f, x + y, finish, Error::DistOverflow),
        unreadable(f, x + y, Error::DistOverflow),
{
    let (k, e) = lemma_sent_is_decoded(t, f, x, y);
    let s = f.setup(x + y)->Ok_0;
    lemma_symbol_is_read(t.behind_data(), s.props(), k, Symbol::EndMarker);
    lemma_fault_here(f, x + y, k, finish, Error::DistOverflow);
}

/// An end marker behind which the coder does not come out at zero is refused.
pub proof fn lemma_unclean_end_is_refused(t: Sent, f: Format, x: Seq<u8>, y: Seq<u8>, finish: bool)
    requires
        t.wf(),
        t.sent_as(f, x),
        t.size == 0xFFFF_FFFF_FFFF_FFFF,
        t.data.len() < t.size,
        t.after == Some(Symbol::EndMarker),
        t.rest != 0,
    ensures
        refused(f, x + y, finish, Error::NotTerminated),
{
    let (k, e) = lemma_sent_is_decoded(t, f, x, y);
    let s = f.setup(x + y)->Ok_0;
    lemma_symbol_is_read(t.behind_data(), s.props(), k, Symbol::EndMarker);
    lemma_fault_here(f, x + y, k, finish, Error::NotTerminated);
}

/// A copy that runs past the size is refused.
pub proof fn lemma_long_copy_is_refused(t: Sent, f: Format, x: Seq<u8>, y: Seq<u8>, finish: bool)
    requires
        t.wf(),
        t.sent_as(f, x),
        t.data.len() < t.size < 0x8000_0000_0000_0000,
        t.after matches Some(s) && {
            let dist = copy_distance(t.behind_data(), s);
            let len: int = match s {
                Symbol::Rep(_, len) => len as int,
                Symbol::Match(_, len) => len as int,
                _ => 0,
            };
            &&& 1 <= dist <= t.reach()
            &&& dist <= t.preset.len() + t.data.len()
            &&& t.data.len() + len > t.size
        },
    ensures
        refused(f, x + y, finish, Error::EndNotFinished),
        unreadable(f, x + y, Error::EndNotFinished),
{
    let (k, e) = lemma_sent_is_decoded(t, f, x, y);
    let s = f.setup(x + y)->Ok_0;
    let p = s.props();
    let w = t.behind_data();
    let a = t.after->0;
    lemma_symbol_is_read(w, p, k, a);
    assert(k.reps[0] == w.reps[0] && k.reps[1] == w.reps[1] && k.reps[2] == w.reps[2] && k.reps[3]
        == w.reps[3]);
    if let Symbol::Rep(i, _) = a {
        assert(i == 0 || i == 1 || i == 2 || i == 3);
    }
    let n = step(p, k).0;
    let dist = copy_distance(w, a);
    let len: nat = match a {
        Symbol::Rep(_, len) => len as nat,
        Symbol::Match(_, len) => len as nat,
        _ => 0,
    };
    lemma_copied(k.hist, dist - 1, len);
    assert(step(p, k).1 == Outcome::Done);
    assert(n.hist.len() == k.hist.len() + len);
    let m = f.first(x + y);
    let c = choose|c: nat| #[trigger] steps(p, m, s.limit(), 0, c) == Some(k);
    assert(steps(p, m, s.limit(), 0, c + 1) == Some(n));
    assert(reaches(p, m, s.limit(), 0, n));
    lemma_fault_here(f, x + y, n, finish, Error::EndNotFinished);
}

/// A file whose first byte is that of no parameters, which wants a dictionary that
/// there cannot be, or which takes more memory than is allowed, is refused, and so is
/// a payload that does not begin with a zero. The memory that is named for a file is
/// the least limit with which it is not refused. A limit of all ones is none, and a
/// file that was not refused for its memory is not with a higher limit.
pub proof fn lemma_bad_header_is_refused(
    mem_limit_kb: u32,
    higher: u32,
    preset: Seq<u8>,
    x: Seq<u8>,
    finish: bool,
)
    requires
        x.len() >= 13,
    ensures
        ({
            let f = Format::File { mem_limit_kb, preset };
            let g = Format::File { mem_limit_kb: higher, preset };
            let dict = x[1] + 0x100 * x[2] + 0x1_0000 * x[3] + 0x100_0000 * x[4];
            let lc = x[0] as int % 9;
            let lp = x[0] as int / 9 % 5;
            &&& dict > 0xFFFF_FFF0 ==> refused(f, x, finish, Error::DictSizeTooLarge)
            &&& dict <= 0xFFFF_FFF0 && x[0] >= 225 ==> refused(
                f,
                x,
                finish,
                Error::InvalidPropsByte,
            )
            &&& dict <= 0xFFFF_FFF0 && x[0] < 225 && 1024 * mem_limit_kb < dict + 1536 * pow2(
                (lc + lp) as nat,
            ) ==> refused(f, x, finish, Error::MemoryLimit)
            &&& dict <= 0xFFFF_FFF0 && x[0] < 225 ==> (refused(f, x, finish, Error::MemoryLimit)
                <==> mem_limit_kb < memory_usage(dict as u32, lc as u32, lp as u32))
            &&& mem_limit_kb == 0xFFFF_FFFF ==> !refused(f, x, finish, Error::MemoryLimit)
            &&& mem_limit_kb <= higher && refused(g, x, finish, Error::MemoryLimit) ==> refused(
                f,
                x,
                finish,
                Error::MemoryLimit,
            )
            &&& x.len() >= 18 && f.setup(x) is Ok && x[13] != 0 ==> refused(
                f,
                x,
                finish,
                Error::FirstByteNotZero,
            )
        }),
{
    let lc = x[0] as int % 9;
    let lp = x[0] as int / 9 % 5;
    let pb = x[0] as int / 45;
    let dict = x[1] + 0x100 * x[2] + 0x1_0000 * x[3] + 0x100_0000 * x[4];
    lemma_props_byte(x[0], lc as u32, lp as u32, pb as u32);
    lemma_dict_rounded(dict);
    lemma_memory_covers(dict as u32, lc as u32, lp as u32);
    lemma2_to64();
    let b = (lc + lp) as nat;
    if b < 12 {
        lemma_pow2_strictly_increases(b, 12);
    }
}

} // verus!
