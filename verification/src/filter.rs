//! Filters that data may have been run through before it was compressed, and
//! is run through backwards after it was decompressed.

use vstd::prelude::*;

use crate::error::Error;

verus! {

/// The kinds of filter a container can name.
#[derive(Clone, Copy, PartialEq, Eq, Structural, Debug)]
pub enum FilterType {
    /// Differences between bytes a fixed distance apart.
    Delta,
    /// Branches in PowerPC code.
    BcjPpc,
    /// Branches in ARM code.
    BcjArm,
    /// Branches in SPARC code.
    BcjSparc,
    /// LZMA2 compression, which is not a filter that data is run through
    /// before compression.
    Lzma2,
}

/// A filter and its property: the distance of a delta filter, or the position
/// that the first byte of code has.
#[derive(Clone, Copy, PartialEq, Eq, Structural, Debug)]
pub struct FilterConfig {
    pub filter_type: FilterType,
    pub property: u32,
}

/// The largest distance of a delta filter.
pub const DELTA_MAX: u32 = 256;

impl FilterConfig {
    pub fn new(filter_type: FilterType, property: u32) -> (c: Self)
        ensures
            c.filter_type == filter_type,
            c.property == property,
    {
        FilterConfig { filter_type, property }
    }

    /// The filter is one that data can be run through, and its property is one
    /// that it can have.
    pub open spec fn wf(self) -> bool {
        match self.filter_type {
            FilterType::Delta => 1 <= self.property <= DELTA_MAX,
            FilterType::Lzma2 => false,
            _ => self.property % 4 == 0,
        }
    }
}

/// Four bytes of code.
#[derive(Clone, Copy)]
pub struct Word {
    pub a: u8,
    pub b: u8,
    pub c: u8,
    pub d: u8,
}

impl Word {
    /// The number in the bytes, the most significant first.
    pub open spec fn big(self) -> int {
        self.a * 0x100_0000 + self.b * 0x1_0000 + self.c * 0x100 + self.d
    }

    /// The number in the bytes, the least significant first.
    pub open spec fn little(self) -> int {
        self.d * 0x100_0000 + self.c * 0x1_0000 + self.b * 0x100 + self.a
    }

    /// The bytes of a number, the most significant first.
    pub open spec fn of_big(v: int) -> Word {
        Word {
            a: (v / 0x100_0000 % 0x100) as u8,
            b: (v / 0x1_0000 % 0x100) as u8,
            c: (v / 0x100 % 0x100) as u8,
            d: (v % 0x100) as u8,
        }
    }

    /// The bytes of a number, the least significant first.
    pub open spec fn of_little(v: int) -> Word {
        let w = Word::of_big(v);
        Word { a: w.d, b: w.c, c: w.b, d: w.a }
    }

    fn to_big(self) -> (v: u32)
        ensures
            v == self.big(),
    {
        self.a as u32 * 0x100_0000 + self.b as u32 * 0x1_0000 + self.c as u32 * 0x100
            + self.d as u32
    }

    fn from_big(v: u32) -> (w: Self)
        ensures
            w == Word::of_big(v as int),
    {
        Word {
            a: (v / 0x100_0000 % 0x100) as u8,
            b: (v / 0x1_0000 % 0x100) as u8,
            c: (v / 0x100 % 0x100) as u8,
            d: (v % 0x100) as u8,
        }
    }

    fn turned(self) -> (w: Self)
        ensures
            w == (Word { a: self.d, b: self.c, c: self.b, d: self.a }),
    {
        Word { a: self.d, b: self.c, c: self.b, d: self.a }
    }
}

/// A branch at `pos` to an absolute address, turned back into one to an address
/// relative to its own. What is no branch stays as it is.
///
/// An ARM branch counts in words from two words ahead, and has them in its last
/// 24 bits. A PowerPC branch has bytes in its last 26 bits, of which the last two
/// are flags. A SPARC call counts in words, in its last 30 bits, and is one where
/// the first eight of those repeat the sign of the others.
#[verifier::opaque]
pub open spec fn unbranched(kind: FilterType, pos: u32, w: Word) -> Word {
    match kind {
        FilterType::BcjArm => if w.d == 0xEB {
            Word::of_little(0xEB00_0000 + (w.little() - pos / 4 - 2) % 0x100_0000)
        } else {
            w
        },
        FilterType::BcjPpc => if w.big() / 0x400_0000 == 0x12 && w.big() % 4 == 1 {
            Word::of_big(0x4800_0000 + (w.big() - pos) % 0x400_0000)
        } else {
            w
        },
        FilterType::BcjSparc => if w.big() / 0x40_0000 == 0x100 || w.big() / 0x40_0000 == 0x1FF {
            let words = (w.big() - pos / 4) % 0x80_0000;
            Word::of_big(
                0x4000_0000 + (if words < 0x40_0000 {
                    words
                } else {
                    words - 0x80_0000 + 0x4000_0000
                }),
            )
        } else {
            w
        },
        _ => w,
    }
}

/// The same as `unbranched`, to be run.
#[verifier::rlimit(50)]
#[verifier::spinoff_prover]
fn unbranch(kind: FilterType, pos: u32, w: Word) -> (r: Word)
    ensures
        r == unbranched(kind, pos, w),
{
    reveal(unbranched);
    match kind {
        FilterType::BcjArm => {
            if w.d != 0xEB {
                return w;
            }
            let v: u32 = w.turned().to_big();
            let words: u64 = (v as u64 + 0x1_0000_0000 - pos as u64 / 4 - 2) % 0x100_0000;
            proof {
                let x = w.little() - pos / 4 - 2;
                assert((x + 0x100 * 0x100_0000) % 0x100_0000 == x % 0x100_0000);
            }
            Word::from_big(0xEB00_0000 + words as u32).turned()
        },
        FilterType::BcjPpc => {
            let v: u32 = w.to_big();
            if v / 0x400_0000 != 0x12 || v % 4 != 1 {
                return w;
            }
            let bytes: u64 = (v as u64 + 0x1_0000_0000 - pos as u64) % 0x400_0000;
            proof {
                let x = w.big() - pos;
                assert((x + 0x40 * 0x400_0000) % 0x400_0000 == x % 0x400_0000);
            }
            Word::from_big(0x4800_0000 + bytes as u32)
        },
        FilterType::BcjSparc => {
            let v: u32 = w.to_big();
            if v / 0x40_0000 != 0x100 && v / 0x40_0000 != 0x1FF {
                return w;
            }
            let words: u64 = (v as u64 + 0x1_0000_0000 - pos as u64 / 4) % 0x80_0000;
            proof {
                let x = w.big() - pos / 4;
                assert((x + 0x200 * 0x80_0000) % 0x80_0000 == x % 0x80_0000);
            }
            if words < 0x40_0000 {
                Word::from_big(0x4000_0000 + words as u32)
            } else {
                Word::from_big(0x8000_0000 - 0x80_0000 + words as u32)
            }
        },
        _ => w,
    }
}

/// Byte number `i` behind a delta filter: the difference, and the byte it is
/// the difference to.
pub open spec fn delta_at(raw: Seq<u8>, dist: int, i: int) -> u8
    decreases i,
{
    if i < 0 || dist <= 0 {
        0
    } else if i < dist {
        raw[i]
    } else {
        raw[i].wrapping_add(delta_at(raw, dist, i - dist))
    }
}

/// The four bytes from `i` on.
pub open spec fn word_at(raw: Seq<u8>, i: int) -> Word {
    Word { a: raw[i], b: raw[i + 1], c: raw[i + 2], d: raw[i + 3] }
}

/// Byte number `i` behind a filter for code. What is left of the last four
/// bytes stays as it is.
pub open spec fn code_at(kind: FilterType, start: u32, raw: Seq<u8>, i: int) -> u8 {
    let g = i / 4 * 4;
    if g + 4 <= raw.len() {
        let w = unbranched(kind, ((start + g) % 0x1_0000_0000) as u32, word_at(raw, g));
        if i == g {
            w.a
        } else if i == g + 1 {
            w.b
        } else if i == g + 2 {
            w.c
        } else {
            w.d
        }
    } else {
        raw[i]
    }
}

/// Four whole bytes behind a filter for code, all at once.
proof fn lemma_code_word(kind: FilterType, start: u32, raw: Seq<u8>, g: int)
    requires
        0 <= g,
        g % 4 == 0,
        g + 4 <= raw.len(),
    ensures
        ({
            let w = unbranched(kind, ((start + g) % 0x1_0000_0000) as u32, word_at(raw, g));
            &&& code_at(kind, start, raw, g) == w.a
            &&& code_at(kind, start, raw, g + 1) == w.b
            &&& code_at(kind, start, raw, g + 2) == w.c
            &&& code_at(kind, start, raw, g + 3) == w.d
        }),
{
}

/// The bytes that are left behind the last four whole ones.
proof fn lemma_code_rest(kind: FilterType, start: u32, raw: Seq<u8>, g: int, i: int)
    requires
        0 <= g <= i < raw.len() < g + 4,
        g % 4 == 0,
    ensures
        code_at(kind, start, raw, i) == raw[i],
{
}

/// The data behind a filter, if there is one.
pub open spec fn applied(filter: Option<FilterConfig>, raw: Seq<u8>) -> Seq<u8> {
    match filter {
        None => raw,
        Some(f) => if f.filter_type == FilterType::Delta {
            Seq::new(raw.len(), |i: int| delta_at(raw, f.property as int, i))
        } else {
            Seq::new(raw.len(), |i: int| code_at(f.filter_type, f.property, raw, i))
        },
    }
}

/// How many of the last bytes can still change with what follows.
pub open spec fn unsettled(filter: Option<FilterConfig>, len: nat) -> nat {
    match filter {
        None => 0,
        Some(f) => if f.filter_type == FilterType::Delta {
            0
        } else {
            len % 4
        },
    }
}

proof fn lemma_delta_stable(raw: Seq<u8>, more: Seq<u8>, dist: int, i: int)
    requires
        i < raw.len(),
    ensures
        delta_at(raw + more, dist, i) == delta_at(raw, dist, i),
    decreases i,
{
    if i >= dist && dist > 0 && i >= 0 {
        lemma_delta_stable(raw, more, dist, i - dist);
    }
}

/// What a filter has settled does not change with what follows.
pub proof fn lemma_settled_stable(filter: Option<FilterConfig>, raw: Seq<u8>, more: Seq<u8>)
    ensures
        applied(filter, raw).len() == raw.len(),
        unsettled(filter, raw.len()) <= raw.len(),
        unsettled(filter, raw.len()) <= 3,
        ({
            let n = raw.len() - unsettled(filter, raw.len());
            &&& applied(filter, raw + more).take(n) == applied(filter, raw).take(n)
            &&& applied(filter, raw).skip(n) == raw.skip(n)
        }),
{
    let n = raw.len() - unsettled(filter, raw.len());
    let a = applied(filter, raw + more).take(n);
    let b = applied(filter, raw).take(n);
    assert forall|i: int| 0 <= i < n implies a[i] == b[i] by {
        if let Some(f) = filter {
            lemma_delta_stable(raw, more, f.property as int, i);
            if f.filter_type != FilterType::Delta {
                let g = i / 4 * 4;
                assert(g + 4 <= n);
                assert(word_at(raw + more, g) == word_at(raw, g));
            }
        }
    }
    assert(a =~= b);
    assert(applied(filter, raw).skip(n) =~= raw.skip(n));
}

/// `raw` is `data` as differences: each byte less the one `dist` before it, where
/// there is one.
pub open spec fn differs(data: Seq<u8>, dist: int, raw: Seq<u8>) -> bool {
    &&& raw.len() == data.len()
    &&& forall|i: int|
        0 <= i < data.len() ==> #[trigger] raw[i] == (data[i] - (if i < dist {
            0
        } else {
            data[i - dist] as int
        })) % 0x100
}

proof fn lemma_delta_undone(data: Seq<u8>, dist: int, raw: Seq<u8>, i: int)
    requires
        dist > 0,
        differs(data, dist, raw),
        0 <= i < data.len(),
    ensures
        delta_at(raw, dist, i) == data[i],
    decreases i,
{
    assert(raw[i] as int == (data[i] - (if i < dist {
        0
    } else {
        data[i - dist] as int
    })) % 0x100);
    if i >= dist {
        lemma_delta_undone(data, dist, raw, i - dist);
    }
}

/// A call of a SPARC: its distance in words fits in 23 bits with a sign.
pub open spec fn sparc_call(w: Word) -> bool {
    w.a == 0x40 && w.b < 0x40 || w.a == 0x7F && w.b >= 0xC0
}

/// How far a call of a SPARC goes, in words.
pub open spec fn sparc_words(w: Word) -> int {
    (if w.a == 0x40 {
        w.b as int
    } else {
        w.b - 0x100
    }) * 0x1_0000 + w.c * 0x100 + w.d
}

/// `w` is code at `pos`, and `v` the same with the address that a branch goes to
/// in place of the way there.
pub open spec fn branched(kind: FilterType, pos: int, w: Word, v: Word) -> bool {
    match kind {
        FilterType::BcjArm => if w.d == 0xEB {
            let way = w.a + w.b * 0x100 + w.c * 0x1_0000;
            let address = v.a + v.b * 0x100 + v.c * 0x1_0000;
            v.d == 0xEB && address == (way + (pos + 8) / 4) % 0x100_0000
        } else {
            v == w
        },
        FilterType::BcjPpc => if 0x48 <= w.a < 0x4C && w.d % 4 == 1 {
            let way = (w.a - 0x48) * 0x100_0000 + w.b * 0x1_0000 + w.c * 0x100 + w.d;
            let address = (v.a - 0x48) * 0x100_0000 + v.b * 0x1_0000 + v.c * 0x100 + v.d;
            0x48 <= v.a < 0x4C && address == (way + pos) % 0x400_0000
        } else {
            v == w
        },
        FilterType::BcjSparc => if sparc_call(w) {
            sparc_call(v) && (sparc_words(v) - sparc_words(w) - pos / 4) % 0x80_0000 == 0
        } else {
            v == w
        },
        _ => v == w,
    }
}

proof fn lemma_big(v: int, w: Word)
    requires
        0 <= v < 0x1_0000_0000,
        v == w.big(),
    ensures
        Word::of_big(v) == w,
{
    assert(v / 0x100_0000 == w.a);
    assert(v / 0x1_0000 == w.a * 0x100 + w.b);
    assert(v / 0x100 == w.a * 0x1_0000 + w.b * 0x100 + w.c);
}

/// Where a number of bits comes round, what was added is taken away again.
proof fn lemma_come_round(way: int, by: int, sum: int, round: int, high: int)
    requires
        0 <= way < round,
        sum == (way + by) % round,
    ensures
        (high * round + sum - by) % round == way,
{
    let q = (way + by) / round;
    vstd::arithmetic::div_mod::lemma_fundamental_div_mod(way + by, round);
    assert(high * round + sum - by == (high - q) * round + way) by (nonlinear_arith)
        requires
            way + by == round * q + sum,
    ;
    vstd::arithmetic::div_mod::lemma_mod_multiples_vanish(high - q, way, round);
    vstd::arithmetic::div_mod::lemma_small_mod(way as nat, round as nat);
    assert((high - q) * round == round * (high - q)) by (nonlinear_arith);
}

#[verifier::rlimit(50)]
#[verifier::spinoff_prover]
proof fn lemma_unbranched_arm(pos: u32, w: Word, v: Word)
    requires
        pos % 4 == 0,
        branched(FilterType::BcjArm, pos as int, w, v),
    ensures
        unbranched(FilterType::BcjArm, pos, v) == w,
{
    reveal(unbranched);
    if w.d == 0xEB {
        let way = w.a + w.b * 0x100 + w.c * 0x1_0000;
        let address = v.a + v.b * 0x100 + v.c * 0x1_0000;
        lemma_come_round(way, (pos + 8) / 4, address, 0x100_0000, 0xEB);
        lemma_big(0xEB00_0000 + way, Word { a: w.d, b: w.c, c: w.b, d: w.a });
    }
}

#[verifier::rlimit(50)]
#[verifier::spinoff_prover]
proof fn lemma_unbranched_ppc(pos: u32, w: Word, v: Word)
    requires
        pos % 4 == 0,
        branched(FilterType::BcjPpc, pos as int, w, v),
    ensures
        unbranched(FilterType::BcjPpc, pos, v) == w,
{
    reveal(unbranched);
    lemma_ppc_branch(w);
    lemma_ppc_branch(v);
    if 0x48 <= w.a < 0x4C && w.d % 4 == 1 {
        let way = (w.a - 0x48) * 0x100_0000 + w.b * 0x1_0000 + w.c * 0x100 + w.d;
        let address = (v.a - 0x48) * 0x100_0000 + v.b * 0x1_0000 + v.c * 0x100 + v.d;
        assert(address % 4 == 1) by {
            assert(way % 4 == 1);
        }
        assert(v.d % 4 == 1);
        lemma_come_round(way, pos as int, address, 0x400_0000, 0x12);
        lemma_big(0x4800_0000 + way, w);
    }
}

/// What makes a branch of a PowerPC.
proof fn lemma_ppc_branch(w: Word)
    ensures
        w.big() / 0x400_0000 == 0x12 <==> 0x48 <= w.a < 0x4C,
        w.big() % 4 == w.d % 4,
{
}

/// What makes a call of a SPARC.
proof fn lemma_sparc_call(w: Word)
    ensures
        sparc_call(w) <==> w.big() / 0x40_0000 == 0x100 || w.big() / 0x40_0000 == 0x1FF,
        sparc_call(w) ==> {
            let x = sparc_words(w);
            &&& -0x40_0000 <= x < 0x40_0000
            &&& x >= 0 ==> w.big() == 0x80 * 0x80_0000 + x
            &&& x < 0 ==> w.big() == 0x100 * 0x80_0000 + x
        },
{
}

#[verifier::rlimit(50)]
#[verifier::spinoff_prover]
proof fn lemma_unbranched_sparc(pos: u32, w: Word, v: Word)
    requires
        pos % 4 == 0,
        branched(FilterType::BcjSparc, pos as int, w, v),
    ensures
        unbranched(FilterType::BcjSparc, pos, v) == w,
{
    reveal(unbranched);
    lemma_sparc_call(w);
    lemma_sparc_call(v);
    if sparc_call(w) {
        let x = sparc_words(w);
        let y = sparc_words(v);
        let z = x % 0x80_0000;
        let by = (pos / 4) as int;
        assert(y % 0x80_0000 == (z + by) % 0x80_0000);
        let high: int = if y >= 0 {
            0x80
        } else {
            0xFF
        };
        assert(v.big() == high * 0x80_0000 + y % 0x80_0000);
        lemma_come_round(z, by, y % 0x80_0000, 0x80_0000, high);
        lemma_big(w.big(), w);
    }
}

/// A branch that was turned into one to an address is turned back.
pub proof fn lemma_unbranched(kind: FilterType, pos: u32, w: Word, v: Word)
    requires
        pos % 4 == 0,
        branched(kind, pos as int, w, v),
    ensures
        unbranched(kind, pos, v) == w,
{
    match kind {
        FilterType::BcjArm => lemma_unbranched_arm(pos, w, v),
        FilterType::BcjPpc => lemma_unbranched_ppc(pos, w, v),
        FilterType::BcjSparc => lemma_unbranched_sparc(pos, w, v),
        _ => {
            reveal(unbranched);
        },
    }
}

/// `raw` is `data` run through a filter, as it is before compression: differences,
/// or code with the addresses of its branches.
pub open spec fn filtered(filter: FilterConfig, data: Seq<u8>, raw: Seq<u8>) -> bool {
    &&& raw.len() == data.len()
    &&& if filter.filter_type == FilterType::Delta {
        differs(data, filter.property as int, raw)
    } else {
        &&& forall|g: int|
            0 <= g && g + 4 <= data.len() && g % 4 == 0 ==> branched(
                filter.filter_type,
                (filter.property + g) % 0x1_0000_0000,
                #[trigger] word_at(data, g),
                word_at(raw, g),
            )
        &&& forall|i: int|
            data.len() / 4 * 4 <= i < data.len() ==> #[trigger] raw[i] == data[i]
    }
}

/// Data that was run through a filter before it was compressed comes back.
pub proof fn lemma_filter_undone(filter: FilterConfig, data: Seq<u8>, raw: Seq<u8>)
    requires
        filter.wf(),
        filtered(filter, data, raw),
    ensures
        applied(Some(filter), raw) == data,
        applied(None, raw) == raw,
{
    let out = applied(Some(filter), raw);
    assert forall|i: int| 0 <= i < data.len() implies out[i] == data[i] by {
        if filter.filter_type == FilterType::Delta {
            lemma_delta_undone(data, filter.property as int, raw, i);
        } else {
            let g = i / 4 * 4;
            if g + 4 <= data.len() {
                let pos = ((filter.property + g) % 0x1_0000_0000) as u32;
                assert(pos % 4 == 0);
                lemma_unbranched(filter.filter_type, pos, word_at(data, g), word_at(raw, g));
            } else {
                assert(raw[i] == data[i]);
            }
        }
    }
    assert(out =~= data);
}

/// Which filters there are: differences to one of the last 256 bytes, and code that
/// starts at a whole word. Only the bytes of a word that is not whole yet are held
/// back.
pub proof fn lemma_filters(filter: FilterConfig, len: nat)
    ensures
        filter.filter_type is Delta ==> (filter.wf() <==> 0 < filter.property < 257),
        filter.filter_type is BcjPpc || filter.filter_type is BcjArm || filter.filter_type is BcjSparc
            ==> (filter.wf() <==> exists|words: int| filter.property == #[trigger] (4 * words)),
        filter.filter_type is Lzma2 ==> !filter.wf(),
        unsettled(None, len) == 0,
        filter.filter_type is Delta ==> unsettled(Some(filter), len) == 0,
        !(filter.filter_type is Delta) ==> {
            let held = unsettled(Some(filter), len);
            held < 4 && held <= len && (len - held) % 4 == 0
        },
{
    assert(filter.property % 4 == 0 ==> filter.property == 4 * (filter.property / 4));
}

/// A filter at work.
pub struct StreamFilter {
    config: FilterConfig,
    /// The position of the first byte that is not settled.
    pos: u32,
    /// The last bytes that came out of a delta filter, as many as its distance.
    last: Vec<u8>,
    held: usize,
    seen: Ghost<Seq<u8>>,
}

impl StreamFilter {
    /// Every byte that went in.
    pub closed spec fn seen(&self) -> Seq<u8> {
        self.seen@
    }

    pub closed spec fn config(&self) -> FilterConfig {
        self.config
    }

    /// How many of the last bytes are still to be settled.
    pub closed spec fn held(&self) -> nat {
        self.held as nat
    }

    pub closed spec fn wf(&self) -> bool {
        &&& self.config.wf()
        &&& self.held == unsettled(Some(self.config), self.seen@.len()) || self.held == 0
        &&& self.config.filter_type == FilterType::Delta ==> {
            &&& self.last@.len() == self.config.property
            &&& forall|j: int|
                0 <= j < self.last@.len() ==> #[trigger] self.last@[j] == delta_at(
                    self.seen@,
                    self.config.property as int,
                    self.seen@.len() - self.config.property + j,
                )
        }
        &&& self.config.filter_type != FilterType::Delta ==> self.pos == (self.config.property
            + self.seen@.len() / 4 * 4) % 0x1_0000_0000
    }

    /// A filter that nothing has gone through yet.
    pub fn new(config: &FilterConfig) -> (r: Result<Self, Error>)
        ensures
            match r {
                Ok(f) => config.wf() && f.wf() && f.config() == config && f.seen() == Seq::<u8>::empty()
                    && f.held() == 0,
                Err(e) => !config.wf() && e == (if config.filter_type == FilterType::Lzma2 {
                    Error::NotAPreFilter
                } else {
                    Error::FilterProperty
                }),
            },
    {
        let ok = match config.filter_type {
            FilterType::Lzma2 => {
                return Err(Error::NotAPreFilter);
            },
            FilterType::Delta => 1 <= config.property && config.property <= DELTA_MAX,
            _ => config.property % 4 == 0,
        };
        if !ok {
            return Err(Error::FilterProperty);
        }
        let n: usize = match config.filter_type {
            FilterType::Delta => config.property as usize,
            _ => 0,
        };
        Ok(
            StreamFilter {
                config: *config,
                pos: config.property,
                last: vec![0u8; n],
                held: 0,
                seen: Ghost(Seq::empty()),
            },
        )
    }

    /// No filter holds back more than three bytes.
    pub proof fn lemma_held(&self)
        requires
            self.wf(),
        ensures
            self.held() <= 3,
    {
    }

    /// How many of the last bytes are still to be settled.
    pub fn held_back(&self) -> (n: usize)
        requires
            self.wf(),
        ensures
            n == self.held(),
            n <= 3,
            n <= self.seen().len(),
    {
        self.held
    }

    /// Nothing follows, so the last bytes are settled as they are.
    pub fn finish(&mut self)
        requires
            old(self).wf(),
        ensures
            final(self).wf(),
            final(self).held() == 0,
            final(self).seen() == old(self).seen(),
            final(self).config() == old(self).config(),
    {
        self.held = 0;
    }

    /// The bytes of a delta filter.
    fn decode_delta(&mut self, buf: &mut [u8])
        requires
            old(self).wf(),
            old(self).config().filter_type == FilterType::Delta,
        ensures
            final(self).wf(),
            final(self).config() == old(self).config(),
            final(self).seen() == old(self).seen() + old(buf)@,
            final(self).held() == 0,
            final(buf)@ == applied(Some(old(self).config()), final(self).seen()).skip(
                old(self).seen().len() as int,
            ),
    {
        let dist = self.config.property as usize;
        let len = buf.len();
        let ghost raw = self.seen@ + buf@;
        let ghost n = self.seen@.len() as int;
        let mut i: usize = 0;
        while i < len
            invariant
                i <= len,
                len == buf@.len(),
                len == old(buf)@.len(),
                dist == self.config.property,
                dist >= 1,
                *self == *old(self),
                self.wf(),
                self.config.filter_type == FilterType::Delta,
                raw == self.seen@ + old(buf)@,
                n == self.seen@.len(),
                forall|k: int| 0 <= k < i ==> #[trigger] buf@[k] == delta_at(raw, dist as int, n + k),
                forall|k: int| i <= k < len ==> #[trigger] buf@[k] == old(buf)@[k],
            decreases len - i,
        {
            let before = if i >= dist { buf[i - dist] } else { self.last[i] };
            proof {
                if i < dist {
                    lemma_delta_stable(self.seen@, old(buf)@, dist as int, n - dist + i);
                    assert(before == delta_at(raw, dist as int, n + i - dist));
                } else {
                    assert(buf@[i - dist] == delta_at(raw, dist as int, n + (i - dist)));
                }
                assert(raw[n + i] == buf@[i as int]);
            }
            buf[i] = buf[i].wrapping_add(before);
            i = i + 1;
        }
        let mut last: Vec<u8> = Vec::new();
        let mut j: usize = 0;
        while j < dist
            invariant
                j <= dist,
                len == buf@.len(),
                len == old(buf)@.len(),
                dist == self.config.property,
                dist >= 1,
                *self == *old(self),
                self.wf(),
                self.config.filter_type == FilterType::Delta,
                raw == self.seen@ + old(buf)@,
                n == self.seen@.len(),
                last@.len() == j,
                forall|k: int| 0 <= k < len ==> #[trigger] buf@[k] == delta_at(raw, dist as int, n + k),
                forall|k: int|
                    0 <= k < j ==> #[trigger] last@[k] == delta_at(
                        raw,
                        dist as int,
                        raw.len() - dist + k,
                    ),
            decreases dist - j,
        {
            if len < dist && j < dist - len {
                proof {
                    lemma_delta_stable(self.seen@, old(buf)@, dist as int, n - dist + (len + j));
                }
                last.push(self.last[len + j]);
            } else {
                last.push(buf[len - (dist - j)]);
            }
            j = j + 1;
        }
        self.last = last;
        proof {
            self.seen@ = raw;
            assert(buf@ =~= applied(Some(self.config), raw).skip(n));
        }
    }

    /// The bytes of a filter for code, from the held back ones on.
    #[verifier::rlimit(50)]
    fn decode_code(&mut self, buf: &mut [u8])
        requires
            old(self).wf(),
            old(self).config().filter_type != FilterType::Delta,
            old(self).held() == unsettled(Some(old(self).config()), old(self).seen().len()),
            old(self).held() <= old(buf)@.len(),
            old(buf)@.take(old(self).held() as int) == old(self).seen().skip(
                old(self).seen().len() - old(self).held(),
            ),
        ensures
            final(self).wf(),
            final(self).config() == old(self).config(),
            final(self).seen() == old(self).seen() + old(buf)@.skip(old(self).held() as int),
            final(self).held() == unsettled(Some(old(self).config()), final(self).seen().len()),
            final(buf)@ == applied(Some(old(self).config()), final(self).seen()).skip(
                old(self).seen().len() - old(self).held(),
            ),
    {
        let len = buf.len();
        let kind = self.config.filter_type;
        let ghost start = self.config.property;
        let ghost raw = self.seen@ + buf@.skip(self.held as int);
        let ghost n = self.seen@.len() - self.held;
        let mut pos = self.pos;
        let mut i: usize = 0;
        proof {
            assert(n % 4 == 0);
            assert(raw.skip(n) =~= buf@) by {
                assert forall|k: int| 0 <= k < len implies raw[n + k] == buf@[k] by {
                    if k < self.held {
                        assert(buf@.take(self.held as int)[k] == buf@[k]);
                        assert(self.seen@.skip(n)[k] == self.seen@[n + k]);
                    }
                }
            }
        }
        while len - i >= 4
            invariant
                i <= len,
                i % 4 == 0,
                len == buf@.len(),
                len == old(buf)@.len(),
                n >= 0,
                n % 4 == 0,
                raw.len() == n + len,
                raw.skip(n) == old(buf)@,
                pos == (start + n + i) % 0x1_0000_0000,
                forall|k: int| 0 <= k < i ==> #[trigger] buf@[k] == code_at(kind, start, raw, n + k),
                forall|k: int| i <= k < len ==> #[trigger] buf@[k] == old(buf)@[k],
            decreases len - i,
        {
            let ghost before = buf@;
            let w = unbranch(
                kind,
                pos,
                Word { a: buf[i], b: buf[i + 1], c: buf[i + 2], d: buf[i + 3] },
            );
            proof {
                let g = n + i;
                assert forall|k: int| 0 <= k < len implies raw[n + k] == old(buf)@[k] by {
                    assert(raw.skip(n)[k] == raw[n + k]);
                }
                lemma_code_word(kind, start, raw, g);
                assert(word_at(raw, g) == (Word {
                    a: before[i as int],
                    b: before[i + 1],
                    c: before[i + 2],
                    d: before[i + 3],
                }));
            }
            buf[i] = w.a;
            buf[i + 1] = w.b;
            buf[i + 2] = w.c;
            buf[i + 3] = w.d;
            pos = pos.wrapping_add(4);
            i = i + 4;
        }
        self.pos = pos;
        self.held = len - i;
        proof {
            self.seen@ = raw;
            assert forall|k: int| i <= k < len implies buf@[k] == code_at(kind, start, raw, n + k) by {
                lemma_code_rest(kind, start, raw, n + i, n + k);
                assert(raw.skip(n)[k] == raw[n + k]);
            }
            assert(buf@ =~= applied(Some(self.config), raw).skip(n));
        }
    }

    /// Runs the filter over `buf`, which holds what was held back and what
    /// follows it.
    pub fn decode(&mut self, buf: &mut [u8])
        requires
            old(self).wf(),
            old(self).held() == unsettled(Some(old(self).config()), old(self).seen().len()),
            old(self).held() <= old(buf)@.len(),
            old(buf)@.take(old(self).held() as int) == old(self).seen().skip(
                old(self).seen().len() - old(self).held(),
            ),
        ensures
            final(self).wf(),
            final(self).config() == old(self).config(),
            final(self).seen() == old(self).seen() + old(buf)@.skip(old(self).held() as int),
            final(self).held() == unsettled(Some(old(self).config()), final(self).seen().len()),
            final(buf)@ == applied(Some(old(self).config()), final(self).seen()).skip(
                old(self).seen().len() - old(self).held(),
            ),
    {
        match self.config.filter_type {
            FilterType::Delta => {
                proof {
                    assert(buf@.skip(0) =~= buf@);
                }
                self.decode_delta(buf);
            },
            _ => {
                self.decode_code(buf);
            },
        }
    }
}

} // verus!
