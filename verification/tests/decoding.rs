use std::io;

use lzma_rust2::decoder::LzmaDecoder;
use lzma_rust2::engine::{InputEnd, Limits, LzmaCore};
use lzma_rust2::lz::LzDecoder;
use lzma_rust2::props::build_decoders;
use lzma_rust2::range::{RangeCoderState, RangeDecoder, SliceRangeReader};
use lzma_rust2::{
    get_memory_usage, get_memory_usage_by_props, Action, Error, ErrorKind, FilterConfig,
    FilterType, LzmaReader, LzmaStream, Read, ReadError, Status,
};

/// "Hello, world!" as a raw LZMA stream: five range coder init bytes and
/// then nineteen bytes of payload, ended by an end of payload marker. The
/// properties are `lc = 3`, `lp = 0`, `pb = 2`.
const RAW: [u8; 24] = [
    0, 36, 25, 73, 152, 111, 22, 2, 140, 232, 230, 91, 177, 71, 198, 206, 183, 99, 255, 255, 60,
    172, 0, 0,
];

/// The same with the header of a file in front: a dictionary of 8 MiB, and an
/// unknown size.
fn hello_file() -> Vec<u8> {
    let mut file = vec![
        93, 0, 0, 128, 0, 255, 255, 255, 255, 255, 255, 255, 255,
    ];
    file.extend_from_slice(&RAW);
    file
}

// An encoder to make payloads with. It looks for matches a little, so that
// every kind of symbol occurs.

struct LenCoder {
    choice: u16,
    choice2: u16,
    low: Vec<u16>,
    mid: Vec<u16>,
    high: Vec<u16>,
}

impl LenCoder {
    fn new() -> Self {
        LenCoder {
            choice: 1024,
            choice2: 1024,
            low: vec![1024; 128],
            mid: vec![1024; 128],
            high: vec![1024; 256],
        }
    }
}

struct RangeEncoder {
    low: u64,
    range: u32,
    cache: u8,
    cache_size: u64,
    out: Vec<u8>,
}

impl RangeEncoder {
    fn shift_low(&mut self) {
        if self.low < 0xFF00_0000 || self.low > 0xFFFF_FFFF {
            let carry = (self.low >> 32) as u8;
            let mut byte = self.cache;
            while self.cache_size > 0 {
                self.out.push(byte.wrapping_add(carry));
                byte = 0xFF;
                self.cache_size -= 1;
            }
            self.cache = (self.low >> 24) as u8;
        }
        self.cache_size += 1;
        self.low = (self.low & 0x00FF_FFFF) << 8;
    }

    fn bit(&mut self, prob: &mut u16, bit: u32) {
        let bound = (self.range >> 11) * u32::from(*prob);
        if bit == 0 {
            self.range = bound;
            *prob += (2048 - *prob) >> 5;
        } else {
            self.low += u64::from(bound);
            self.range -= bound;
            *prob -= *prob >> 5;
        }
        while self.range < 1 << 24 {
            self.range <<= 8;
            self.shift_low();
        }
    }

    fn direct(&mut self, value: u32, count: u32) {
        for i in (0..count).rev() {
            self.range >>= 1;
            if (value >> i) & 1 == 1 {
                self.low += u64::from(self.range);
            }
            while self.range < 1 << 24 {
                self.range <<= 8;
                self.shift_low();
            }
        }
    }

    fn tree(&mut self, probs: &mut [u16], value: u32, bits: u32) {
        let mut node = 1usize;
        for i in (0..bits).rev() {
            let b = (value >> i) & 1;
            self.bit(&mut probs[node], b);
            node = 2 * node + b as usize;
        }
    }

    fn reverse(&mut self, probs: &mut [u16], base: usize, value: u32, bits: u32) {
        let mut node = 1usize;
        for i in 0..bits {
            let b = (value >> i) & 1;
            self.bit(&mut probs[base + node], b);
            node = 2 * node + b as usize;
        }
    }

    fn len(&mut self, coder: &mut LenCoder, len: u32, pos_state: usize) {
        if len < 8 {
            self.bit(&mut coder.choice, 0);
            self.tree(&mut coder.low[8 * pos_state..8 * pos_state + 8], len, 3);
        } else if len < 16 {
            self.bit(&mut coder.choice, 1);
            self.bit(&mut coder.choice2, 0);
            self.tree(&mut coder.mid[8 * pos_state..8 * pos_state + 8], len - 8, 3);
        } else {
            self.bit(&mut coder.choice, 1);
            self.bit(&mut coder.choice2, 1);
            self.tree(&mut coder.high, len - 16, 8);
        }
    }
}

struct Encoder {
    rc: RangeEncoder,
    lc: u32,
    lp: u32,
    pb: u32,
    state: usize,
    reps: [usize; 4],
    is_match: Vec<u16>,
    is_rep: Vec<u16>,
    is_rep_g0: Vec<u16>,
    is_rep_g1: Vec<u16>,
    is_rep_g2: Vec<u16>,
    is_rep0_long: Vec<u16>,
    pos_slot: Vec<u16>,
    special: Vec<u16>,
    align: Vec<u16>,
    len: LenCoder,
    rep_len: LenCoder,
    literal: Vec<u16>,
}

impl Encoder {
    fn new(lc: u32, lp: u32, pb: u32) -> Self {
        Encoder {
            rc: RangeEncoder {
                low: 0,
                range: 0xFFFF_FFFF,
                cache: 0,
                cache_size: 1,
                out: Vec::new(),
            },
            lc,
            lp,
            pb,
            state: 0,
            reps: [0; 4],
            is_match: vec![1024; 192],
            is_rep: vec![1024; 12],
            is_rep_g0: vec![1024; 12],
            is_rep_g1: vec![1024; 12],
            is_rep_g2: vec![1024; 12],
            is_rep0_long: vec![1024; 192],
            pos_slot: vec![1024; 256],
            special: vec![1024; 256],
            align: vec![1024; 16],
            len: LenCoder::new(),
            rep_len: LenCoder::new(),
            literal: vec![1024; 0x300 << (lc + lp)],
        }
    }

    fn pos_state(&self, pos: usize) -> usize {
        pos & ((1 << self.pb) - 1)
    }

    fn put_literal(&mut self, data: &[u8], pos: usize) {
        let ps = self.pos_state(pos);
        self.rc.bit(&mut self.is_match[16 * self.state + ps], 0);
        let prev = if pos > 0 { data[pos - 1] as usize } else { 0 };
        let low = pos & ((1 << self.lp) - 1);
        let coder = (low << self.lc) + (prev >> (8 - self.lc));
        let probs = &mut self.literal[0x300 * coder..0x300 * coder + 0x300];
        let byte = u32::from(data[pos]);
        if self.state < 7 {
            self.rc.tree(probs, byte, 8);
        } else {
            let matched = u32::from(data[pos - 1 - self.reps[0]]);
            let mut node = 1usize;
            let mut same = true;
            for i in (0..8).rev() {
                let b = (byte >> i) & 1;
                let m = (matched >> i) & 1;
                let at = if same {
                    0x100 * (1 + m as usize) + node
                } else {
                    node
                };
                self.rc.bit(&mut probs[at], b);
                node = 2 * node + b as usize;
                same = same && b == m;
            }
        }
        self.state = match self.state {
            0..=3 => 0,
            4..=9 => self.state - 3,
            _ => self.state - 6,
        };
    }

    fn put_match(&mut self, pos: usize, dist: usize, len: usize) {
        let ps = self.pos_state(pos);
        self.rc.bit(&mut self.is_match[16 * self.state + ps], 1);
        self.rc.bit(&mut self.is_rep[self.state], 0);
        let len = (len - 2) as u32;
        self.rc.len(&mut self.len, len, ps);
        self.put_distance(dist as u32, len);
        self.reps = [dist, self.reps[0], self.reps[1], self.reps[2]];
        self.state = if self.state < 7 { 7 } else { 10 };
    }

    fn put_distance(&mut self, dist: u32, len: u32) {
        let len_state = len.min(3) as usize;
        let slot = if dist < 4 {
            dist
        } else {
            let top = 31 - dist.leading_zeros();
            2 * top + ((dist >> (top - 1)) & 1)
        };
        let table = &mut self.pos_slot[64 * len_state..64 * len_state + 64];
        self.rc.tree(table, slot, 6);
        if slot >= 4 {
            let bits = slot / 2 - 1;
            let base = (2 + slot % 2) << bits;
            let rest = dist - base;
            if slot < 14 {
                let at = (base - slot) as usize;
                self.rc.reverse(&mut self.special, at, rest, bits);
            } else {
                self.rc.direct(rest >> 4, bits - 4);
                self.rc.reverse(&mut self.align, 0, rest & 15, 4);
            }
        }
    }

    fn put_rep(&mut self, pos: usize, which: usize, len: usize) {
        let ps = self.pos_state(pos);
        let s = self.state;
        self.rc.bit(&mut self.is_match[16 * s + ps], 1);
        self.rc.bit(&mut self.is_rep[s], 1);
        if which == 0 {
            self.rc.bit(&mut self.is_rep_g0[s], 0);
            let long = u32::from(len > 1);
            self.rc.bit(&mut self.is_rep0_long[16 * s + ps], long);
            if len == 1 {
                self.state = if s < 7 { 9 } else { 11 };
                return;
            }
        } else {
            self.rc.bit(&mut self.is_rep_g0[s], 1);
            self.rc.bit(&mut self.is_rep_g1[s], u32::from(which > 1));
            if which > 1 {
                self.rc.bit(&mut self.is_rep_g2[s], u32::from(which > 2));
            }
            let dist = self.reps[which];
            for i in (0..which).rev() {
                self.reps[i + 1] = self.reps[i];
            }
            self.reps[0] = dist;
        }
        self.rc.len(&mut self.rep_len, (len - 2) as u32, ps);
        self.state = if s < 7 { 8 } else { 11 };
    }

    fn put_end_marker(&mut self, pos: usize) {
        let ps = self.pos_state(pos);
        self.rc.bit(&mut self.is_match[16 * self.state + ps], 1);
        self.rc.bit(&mut self.is_rep[self.state], 0);
        self.rc.len(&mut self.len, 0, ps);
        self.put_distance(0xFFFF_FFFF, 0);
    }

    fn finish(mut self) -> Vec<u8> {
        for _ in 0..5 {
            self.rc.shift_low();
        }
        self.rc.out
    }
}

fn common(data: &[u8], pos: usize, dist: usize, max: usize) -> usize {
    let mut n = 0;
    while n < max && pos + n < data.len() && data[pos + n] == data[pos + n - dist - 1] {
        n += 1;
    }
    n
}

/// A payload of `data`, from `start` on, with copies from no further back than
/// `dict` bytes.
fn encode(data: &[u8], start: usize, dict: usize, props: [u32; 3], end_marker: bool) -> Vec<u8> {
    let mut enc = Encoder::new(props[0], props[1], props[2]);
    let mut heads = vec![usize::MAX; 65536];
    let hash = |p: usize| (data[p] as usize) << 8 | data[p + 1] as usize;
    for p in 0..start.saturating_sub(1) {
        heads[hash(p)] = p;
    }
    let mut pos = start;
    while pos < data.len() {
        let mut best = (0usize, 0usize, 4usize);
        for which in 0..4 {
            let dist = enc.reps[which];
            if dist < pos.min(dict) {
                let n = common(data, pos, dist, 273);
                if n > best.0 {
                    best = (n, dist, which);
                }
            }
        }
        if pos + 1 < data.len() {
            let head = heads[hash(pos)];
            if head != usize::MAX && pos - head - 1 < dict {
                let dist = pos - head - 1;
                let n = common(data, pos, dist, 273);
                if n > best.0 + 1 {
                    best = (n, dist, 4);
                }
            }
        }
        let (len, dist, which) = best;
        let len = if len >= 2 && which == 4 {
            enc.put_match(pos, dist, len);
            len
        } else if len >= 2 {
            enc.put_rep(pos, which, len);
            len
        } else if len == 1 && which == 0 {
            enc.put_rep(pos, 0, 1);
            1
        } else {
            enc.put_literal(data, pos);
            1
        };
        for p in pos..pos + len {
            if p + 1 < data.len() {
                heads[hash(p)] = p;
            }
        }
        pos += len;
    }
    if end_marker {
        enc.put_end_marker(pos);
    }
    enc.finish()
}

/// Some text and some noise, with copies near and far.
fn sample(len: usize) -> Vec<u8> {
    let mut state = 0x9E37_79B9u32;
    let mut next = || {
        state ^= state << 13;
        state ^= state >> 17;
        state ^= state << 5;
        state
    };
    let mut data: Vec<u8> = Vec::new();
    while data.len() < len {
        let r = next();
        match r % 5 {
            0 => {
                for _ in 0..(r >> 8) % 40 {
                    data.push((next() >> 24) as u8);
                }
            }
            1 => data.extend_from_slice(b"the quick brown fox jumps over the lazy dog. "),
            2 => {
                let byte = (r >> 24) as u8;
                data.extend(std::iter::repeat(byte).take((r >> 8) as usize % 700));
            }
            _ => {
                if !data.is_empty() {
                    let from = (next() as usize) % data.len();
                    let n = 2 + (r >> 8) as usize % 300;
                    let to = (from + n).min(data.len());
                    let copy = data[from..to].to_vec();
                    data.extend_from_slice(&copy);
                }
            }
        }
    }
    data.truncate(len);
    data
}

fn size_of(data: &[u8], end_marker: bool) -> u64 {
    if end_marker {
        u64::MAX
    } else {
        data.len() as u64
    }
}

/// Feeds `input` in pieces of `take`, with room for `give` bytes at a time, and
/// returns the output and how much input was not used.
fn feed_all(
    stream: &mut LzmaStream,
    input: &[u8],
    take: usize,
    give: usize,
) -> Result<(Vec<u8>, usize), Error> {
    let mut out = Vec::new();
    let mut buf = vec![0u8; give];
    let mut pos = 0;
    loop {
        let end = (pos + take).min(input.len());
        let action = if end == input.len() {
            Action::Finish
        } else {
            Action::Run
        };
        let result = stream.process(&input[pos..end], &mut buf, action)?;
        pos += result.bytes_consumed;
        out.extend_from_slice(&buf[..result.bytes_produced]);
        assert_eq!(stream.total_in(), pos as u64);
        assert_eq!(stream.total_out(), out.len() as u64);
        if result.status == Status::StreamEnd {
            assert!(stream.is_finished());
            assert!(!stream.has_output());
            return Ok((out, input.len() - pos + stream.unused_input().len()));
        }
    }
}

fn parts() -> (LzDecoder, LzmaDecoder, LzmaCore) {
    let (mut lz, lzma) = build_decoders(u64::MAX, 3, 0, 2, 0x0080_0000, None).unwrap();
    lz.ensure_capacity().unwrap();
    let mut core = LzmaCore::new();
    core.init_rc(&[RAW[0], RAW[1], RAW[2], RAW[3], RAW[4]])
        .unwrap();
    (lz, lzma, core)
}

fn limits(compressed_left: Option<u64>) -> Limits {
    Limits {
        remaining_size: u64::MAX,
        compressed_left,
        allow_end_marker: true,
        end_reached: false,
    }
}

#[test]
fn compressed_budget_stops_the_core() {
    let (mut lz, mut lzma, mut core) = parts();
    let mut limits = limits(Some(4));

    // Four bytes of a nineteen byte payload on offer: only four may be
    // taken, and they are too few to start a symbol from.
    let (consumed, produced) = core
        .feed(&mut lz, &mut lzma, &RAW[5..], &mut limits, InputEnd::More)
        .unwrap();
    assert_eq!(consumed, 4);
    assert_eq!(produced, 0);
    assert_eq!(limits.compressed_left, Some(0));

    // A used up budget stops the core dead, however much input is left.
    let (consumed, produced) = core
        .feed(&mut lz, &mut lzma, &RAW[9..], &mut limits, InputEnd::More)
        .unwrap();
    assert_eq!(consumed, 0);
    assert_eq!(produced, 0);
}

#[test]
fn no_budget_decodes_the_whole_payload() {
    let (mut lz, mut lzma, mut core) = parts();
    let mut limits = limits(None);

    let (consumed, produced) = core
        .feed(&mut lz, &mut lzma, &RAW[5..], &mut limits, InputEnd::Caller)
        .unwrap();
    assert_eq!(consumed, RAW.len() - 5);
    assert_eq!(produced, 13);
    assert!(limits.end_reached);

    let mut out = [0u8; 13];
    assert_eq!(lz.flush_partial(&mut out), 13);
    assert_eq!(&out, b"Hello, world!");
    assert!(core.rc_finished());
    assert!(core.unused_input().is_empty());
    assert!(lzma.end_marker_detected());
}

#[test]
fn a_core_and_a_decoder_start_over() {
    let (mut lz, mut lzma, mut core) = parts();
    core.feed(&mut lz, &mut lzma, &RAW[5..], &mut limits(None), InputEnd::Caller)
        .unwrap();
    core.reset();
    lzma.reset();
    assert!(!lzma.end_marker_detected());
    core.init_rc(&[RAW[0], RAW[1], RAW[2], RAW[3], RAW[4]])
        .unwrap();
    // Over a dictionary that is at position thirteen the same bytes say
    // something else, so this one is fresh.
    let (mut lz, _) = build_decoders(u64::MAX, 3, 0, 2, 0x0080_0000, None).unwrap();
    lz.ensure_capacity().unwrap();
    let (_, produced) = core
        .feed(&mut lz, &mut lzma, &RAW[5..], &mut limits(None), InputEnd::Caller)
        .unwrap();
    assert_eq!(produced, 13);
}

#[test]
fn a_length_that_is_too_short_is_not_a_truncated_stream() {
    for (input_end, error) in [
        (InputEnd::Length, Error::PastCompressedSize),
        (InputEnd::Caller, Error::Truncated),
    ] {
        let (mut lz, mut lzma, mut core) = parts();
        let mut limits = limits(Some(10));
        let result = core.feed(&mut lz, &mut lzma, &RAW[5..], &mut limits, input_end);
        assert_eq!(result, Err(error));
    }
}

/// Hands out at most `max` bytes per call, the way a pipe or a socket might.
struct Chunks<'a> {
    data: &'a [u8],
    max: usize,
}

impl Read for Chunks<'_> {
    type Error = io::Error;

    fn read(&mut self, out: &mut [u8]) -> io::Result<usize> {
        let n = out.len().min(self.max).min(self.data.len());
        out[..n].copy_from_slice(&self.data[..n]);
        self.data = &self.data[n..];
        Ok(n)
    }
}

/// Fails with the given error once its bytes are gone, instead of reporting
/// an end. A socket that stays open with nothing to say does that.
struct FailsAfter<'a> {
    data: &'a [u8],
    kind: io::ErrorKind,
    message: &'static str,
}

impl Read for FailsAfter<'_> {
    type Error = io::Error;

    fn read(&mut self, out: &mut [u8]) -> io::Result<usize> {
        if self.data.is_empty() {
            return Err(io::Error::new(self.kind, self.message));
        }
        let n = out.len().min(self.data.len());
        out[..n].copy_from_slice(&self.data[..n]);
        self.data = &self.data[n..];
        Ok(n)
    }
}

fn read_to_end<R: Read>(
    reader: &mut LzmaReader<R>,
    out: &mut Vec<u8>,
) -> Result<(), ReadError<R::Error>> {
    let mut buf = [0u8; 1000];
    loop {
        let n = reader.read(&mut buf)?;
        if n == 0 {
            return Ok(());
        }
        out.extend_from_slice(&buf[..n]);
    }
}

/// "Hello, world!" as a raw LZMA stream, with or without an end marker, and the
/// size to open it with.
fn hello(end_marker: bool) -> (Vec<u8>, u64) {
    let data = b"Hello, world!";
    let compressed = encode(data, 0, 1 << 18, [3, 0, 2], end_marker);
    (compressed, size_of(data, end_marker))
}

fn hello_reader<R: Read>(reader: R, size: u64) -> LzmaReader<R>
where
    R::Error: std::fmt::Debug,
{
    LzmaReader::new_with_props(reader, size, 93, 1 << 18, None)
        .map_err(|_| "not opened")
        .unwrap()
}

#[test]
fn into_parts_is_exact_however_the_input_arrives() {
    for end_marker in [false, true] {
        let (mut compressed, size) = hello(end_marker);
        compressed.extend_from_slice(b"TAIL");
        for max in [1, 2, 3, 7, 19, 64, 65536] {
            let chunks = Chunks {
                data: &compressed,
                max,
            };
            let mut reader = hello_reader(chunks, size);
            let mut out = Vec::new();
            read_to_end(&mut reader, &mut out).unwrap();
            assert_eq!(out, b"Hello, world!");
            let (inner, mut rest) = reader.into_parts();
            rest.extend_from_slice(inner.data);
            assert_eq!(
                rest, b"TAIL",
                "end marker {end_marker}, {max} bytes per read"
            );
        }
    }
}

#[test]
fn a_complete_stream_ends_without_the_source_saying_so() {
    for end_marker in [false, true] {
        let (compressed, size) = hello(end_marker);
        let source = FailsAfter {
            data: &compressed,
            kind: io::ErrorKind::WouldBlock,
            message: "asked for more",
        };
        let mut reader = hello_reader(source, size);
        let mut out = Vec::new();
        let result = read_to_end(&mut reader, &mut out);
        assert!(result.is_ok(), "end marker {end_marker}: {result:?}");
        assert_eq!(out, b"Hello, world!");
    }
}

#[test]
fn an_error_from_the_source_comes_back_as_it_was() {
    let (compressed, size) = hello(true);
    let cut = compressed.len() - 3;

    let source = FailsAfter {
        data: &compressed[..cut],
        kind: io::ErrorKind::ConnectionReset,
        message: "the peer went away",
    };
    let mut reader = hello_reader(source, size);
    match read_to_end(&mut reader, &mut Vec::new()).unwrap_err() {
        ReadError::Source(error) => {
            assert_eq!(error.kind(), io::ErrorKind::ConnectionReset);
            assert_eq!(error.to_string(), "the peer went away");
        }
        ReadError::Data(error) => panic!("{error:?}"),
    }

    let mut reader = hello_reader(&compressed[..cut], size);
    match read_to_end(&mut reader, &mut Vec::new()).unwrap_err() {
        ReadError::Data(error) => assert_eq!(error.kind(), ErrorKind::UnexpectedEof),
        ReadError::Source(error) => panic!("{error:?}"),
    }
}

#[test]
fn the_reader_gives_its_source_back() {
    let (compressed, size) = hello(false);
    let mut reader = hello_reader(
        Chunks {
            data: &compressed,
            max: 6,
        },
        size,
    );
    assert_eq!(reader.inner().max, 6);
    reader.inner_mut().max = 2;
    assert_eq!(reader.inner().max, 2);
    let mut out = Vec::new();
    read_to_end(&mut reader, &mut out).unwrap();
    assert_eq!(out, b"Hello, world!");
    assert_eq!(reader.into_inner().max, 2);
}

#[test]
fn a_file_is_read() {
    let file = hello_file();
    let mut reader = LzmaReader::new_mem_limit(file.as_slice(), u32::MAX, None)
        .map_err(|_| "not opened")
        .unwrap();
    let mut out = Vec::new();
    read_to_end(&mut reader, &mut out).unwrap();
    assert_eq!(out, b"Hello, world!");
}

#[test]
fn a_file_is_streamed() {
    let file = hello_file();
    let mut stream = LzmaStream::new_mem_limit(u32::MAX, None);
    let mut buf = [0; 1024];
    let mut out = Vec::new();
    let mut consumed = 0;
    loop {
        let result = stream
            .process(&file[consumed..], &mut buf, Action::Finish)
            .unwrap();
        consumed += result.bytes_consumed;
        out.extend_from_slice(&buf[..result.bytes_produced]);
        if result.status == Status::StreamEnd {
            break;
        }
    }
    assert_eq!(out, b"Hello, world!");
    assert_eq!(consumed, file.len());
}

#[test]
fn a_stream_comes_out_the_same_however_it_is_cut() {
    let data = sample(30_000);
    for end_marker in [false, true] {
        let mut input = encode(&data, 0, 4096, [3, 0, 2], end_marker);
        let len = input.len();
        input.extend_from_slice(b"what follows the stream is not touched");
        let trailing = input.len() - len;
        for (take, give) in [
            (1, 4096),
            (2, 1),
            (19, 300),
            (20, 20),
            (39, 5000),
            (40, 64),
            (41, 100_000),
            (100_000, 1),
            (100_000, 100_000),
        ] {
            let size = size_of(&data, end_marker);
            let mut stream = LzmaStream::new(size, 3, 0, 2, 4096, None).unwrap();
            let (out, rest) = feed_all(&mut stream, &input, take, give).unwrap();
            assert!(out == data, "{end_marker} {take} {give}");
            assert!(stream.unused_input().len() <= 40);
            assert_eq!(rest, trailing, "{end_marker} {take} {give}");
        }
    }
}

#[test]
fn a_reader_and_a_stream_agree() {
    let data = sample(50_000);
    for props in [[3, 0, 2], [0, 0, 0], [8, 4, 4], [1, 3, 1], [4, 0, 4]] {
        for end_marker in [false, true] {
            let input = encode(&data, 0, 1 << 16, props, end_marker);
            let size = size_of(&data, end_marker);
            let [lc, lp, pb] = props;
            let mut stream = LzmaStream::new(size, lc, lp, pb, 1 << 16, None).unwrap();
            let (out, _) = feed_all(&mut stream, &input, 777, 1234).unwrap();
            assert!(out == data, "{props:?}");
            let mut reader = LzmaReader::new(input.as_slice(), size, lc, lp, pb, 1 << 16, None)
                .map_err(|_| "not opened")
                .unwrap();
            let mut read = Vec::new();
            read_to_end(&mut reader, &mut read).unwrap();
            assert!(read == data, "{props:?}");
        }
    }
}

#[test]
fn a_preset_dictionary_is_copied_from() {
    let preset = sample(5_000);
    let mut all = preset.clone();
    all.extend_from_slice(&preset[1000..3000]);
    all.extend_from_slice(b"and something new");
    let kept = &all[preset.len() - 4096..];
    let input = encode(kept, 4096, 4096, [3, 0, 2], true);
    let mut stream = LzmaStream::new(u64::MAX, 3, 0, 2, 4096, Some(&preset)).unwrap();
    let (out, _) = feed_all(&mut stream, &input, 50, 60).unwrap();
    assert!(out == all[preset.len()..]);
    let mut reader =
        LzmaReader::new(input.as_slice(), u64::MAX, 3, 0, 2, 4096, Some(preset.as_slice()))
            .map_err(|_| "not opened")
            .unwrap();
    let mut read = Vec::new();
    read_to_end(&mut reader, &mut read).unwrap();
    assert!(read == all[preset.len()..]);
}

#[test]
fn a_file_says_how_it_is_to_be_read() {
    let data = sample(3_000);
    let mut file = vec![(2 * 5 + 1) * 9 + 2, 0, 16, 0, 0];
    file.extend_from_slice(&(data.len() as u64).to_le_bytes());
    file.extend_from_slice(&encode(&data, 0, 4096, [2, 1, 2], false));
    let need = get_memory_usage_by_props(4096, (2 * 5 + 1) * 9 + 2).unwrap();
    let mut stream = LzmaStream::new_mem_limit(need, None);
    assert!(feed_all(&mut stream, &file, 7, 70).unwrap().0 == data);
    let mut stream = LzmaStream::new_mem_limit(need - 1, None);
    assert_eq!(
        feed_all(&mut stream, &file, 7, 70),
        Err(Error::MemoryLimit)
    );
    assert!(matches!(
        LzmaReader::new_mem_limit(file.as_slice(), need - 1, None),
        Err(ReadError::Data(Error::MemoryLimit))
    ));
}

#[test]
fn data_of_size_zero_is_over_at_once() {
    let input = encode(&[], 0, 4096, [3, 0, 2], false);
    let mut stream = LzmaStream::new(0, 3, 0, 2, 4096, None).unwrap();
    let (out, rest) = feed_all(&mut stream, &input, 100, 10).unwrap();
    assert!(out.is_empty());
    assert_eq!(rest, 0);
    let mut reader = LzmaReader::new(input.as_slice(), 0, 3, 0, 2, 4096, None)
        .map_err(|_| "not opened")
        .unwrap();
    assert_eq!(reader.read(&mut [0u8; 5]).unwrap(), 0);
}

#[test]
fn output_goes_through_a_filter() {
    let data = sample(9_001);
    let mut delta = data.clone();
    for i in (2..delta.len()).rev() {
        delta[i] = delta[i].wrapping_sub(delta[i - 2]);
    }
    let input = encode(&delta, 0, 4096, [3, 0, 2], true);
    let filters = [FilterConfig::new(FilterType::Delta, 2)];
    for (take, give) in [(1, 1), (64, 3), (100_000, 100_000)] {
        let mut stream = LzmaStream::new(u64::MAX, 3, 0, 2, 4096, None).unwrap();
        stream.set_filters(&filters).unwrap();
        let (out, _) = feed_all(&mut stream, &input, take, give).unwrap();
        assert!(out == data, "{take} {give}");
    }
    // A filter for code leaves the last bytes alone where there are not four.
    let code = [0x10, 0, 0, 0xEB, 0x10, 0, 0, 0xEB, 0x10, 0, 0xEB];
    let input = encode(&code, 0, 4096, [3, 0, 2], false);
    let filters = [FilterConfig::new(FilterType::BcjArm, 0)];
    for (take, give) in [(1, 1), (64, 3), (3, 100)] {
        let mut stream = LzmaStream::new(code.len() as u64, 3, 0, 2, 4096, None).unwrap();
        stream.set_filters(&filters).unwrap();
        let (out, _) = feed_all(&mut stream, &input, take, give).unwrap();
        assert_eq!(out, [0x0E, 0, 0, 0xEB, 0x0D, 0, 0, 0xEB, 0x10, 0, 0xEB]);
    }
}

#[test]
fn filters_are_set_before_the_start() {
    let delta = FilterConfig::new(FilterType::Delta, 1);
    let mut stream = LzmaStream::new_mem_limit(u32::MAX, None);
    assert_eq!(
        stream.set_filters(&[delta, delta]),
        Err(Error::TooManyFilters)
    );
    assert_eq!(
        stream.set_filters(&[FilterConfig::new(FilterType::Lzma2, 0)]),
        Err(Error::NotAPreFilter)
    );
    assert_eq!(
        stream.set_filters(&[FilterConfig::new(FilterType::Delta, 0)]),
        Err(Error::FilterProperty)
    );
    assert_eq!(stream.set_filters(&[delta]), Ok(()));
    assert_eq!(stream.set_filters(&[]), Ok(()));
    let file = hello_file();
    stream
        .process(&file[..1], &mut [0u8; 4], Action::Run)
        .unwrap();
    assert_eq!(stream.set_filters(&[]), Err(Error::FiltersAfterStart));
    let (out, _) = feed_all_from(&mut stream, &file, 1);
    assert_eq!(out, b"Hello, world!");
}

fn feed_all_from(stream: &mut LzmaStream, input: &[u8], from: usize) -> (Vec<u8>, usize) {
    let mut buf = vec![0u8; 1000];
    let result = stream
        .process(&input[from..], &mut buf, Action::Finish)
        .unwrap();
    assert_eq!(result.status, Status::StreamEnd);
    buf.truncate(result.bytes_produced);
    (buf, result.bytes_consumed)
}

#[test]
fn a_stream_that_is_cut_short_is_refused() {
    let data = sample(2_000);
    for end_marker in [false, true] {
        let input = encode(&data, 0, 4096, [3, 0, 2], end_marker);
        for len in 0..input.len() - 6 {
            let size = size_of(&data, end_marker);
            let mut stream = LzmaStream::new(size, 3, 0, 2, 4096, None).unwrap();
            let error = feed_all(&mut stream, &input[..len], 64, 500).unwrap_err();
            if len < 5 {
                assert_eq!(error, Error::UnexpectedEnd);
            } else {
                assert_eq!(error, Error::Truncated);
            }
            assert_eq!(error.kind(), ErrorKind::UnexpectedEof);
        }
    }
}

#[test]
fn a_failed_stream_stays_failed() {
    let mut stream = LzmaStream::new(u64::MAX, 3, 0, 2, 4096, None).unwrap();
    let mut buf = [0u8; 10];
    let result = stream.process(&[1, 0, 0, 0, 0], &mut buf, Action::Run);
    assert_eq!(result, Err(Error::FirstByteNotZero));
    for action in [Action::Run, Action::Finish] {
        let result = stream.process(&RAW, &mut buf, action);
        assert_eq!(result, Err(Error::AlreadyFailed));
        assert_eq!(buf, [0; 10]);
    }
    assert_eq!(stream.total_in(), 5);
    assert_eq!(stream.total_out(), 0);
    assert!(stream.unused_input().is_empty());
    assert!(!stream.is_finished());
    assert!(!stream.has_output());
}

#[test]
fn a_stream_waits_for_room_and_for_input() {
    let data: Vec<u8> = (0..100u32).map(|i| (i * i * 7 + i) as u8).collect();
    let input = encode(&data, 0, 4096, [3, 0, 2], true);
    assert!(input.len() > 45);
    let mut stream = LzmaStream::new(u64::MAX, 3, 0, 2, 4096, None).unwrap();
    // No room at all: the input is decoded, but nothing comes out.
    let result = stream.process(&input, &mut [], Action::Run).unwrap();
    assert_eq!(result.bytes_produced, 0);
    assert_eq!(result.status, Status::Running);
    assert!(stream.has_output());
    let used = result.bytes_consumed;
    assert_eq!(stream.total_in(), used as u64);
    let mut buf = [0u8; 100];
    let result = stream
        .process(&input[used..], &mut buf[..30], Action::Finish)
        .unwrap();
    assert_eq!(result.bytes_produced, 30);
    assert_eq!(result.status, Status::Running);
    let used = used + result.bytes_consumed;
    let result = stream
        .process(&input[used..], &mut buf[30..], Action::Finish)
        .unwrap();
    assert_eq!(result.bytes_produced, 70);
    assert!(buf[..] == data[..]);
    // What is over stays over.
    let result = stream.process(&[], &mut buf, Action::Finish).unwrap();
    assert_eq!(result.status, Status::StreamEnd);
    assert_eq!(result.bytes_produced, 0);

    // With too little input all that can be told is handed out.
    let data = sample(1_000);
    let input = encode(&data, 0, 4096, [3, 0, 2], false);
    let mut stream = LzmaStream::new(1_000, 3, 0, 2, 4096, None).unwrap();
    let mut out = vec![0u8; 1_001];
    let half = input.len() / 2;
    let result = stream
        .process(&input[..half], &mut out, Action::Run)
        .unwrap();
    assert_eq!(result.bytes_consumed, half);
    assert_eq!(result.status, Status::Running);
    assert!(result.bytes_produced > 0);
    assert!(out[..result.bytes_produced] == data[..result.bytes_produced]);
    assert!(!stream.has_output());
}

#[test]
fn a_payload_that_is_wrong_is_refused() {
    let data = sample(500);
    // A distance that reaches back too far: a copy at the very start.
    let mut enc = Encoder::new(3, 0, 2);
    enc.put_match(0, 7, 2);
    let mut input = enc.finish();
    input.extend_from_slice(&[0; 30]);
    for size in [u64::MAX, 100] {
        let mut stream = LzmaStream::new(size, 3, 0, 2, 4096, None).unwrap();
        let error = feed_all(&mut stream, &input, 100, 100).unwrap_err();
        assert_eq!(error, Error::DistOverflow);
        assert_eq!(error.kind(), ErrorKind::Other);
        assert_eq!(error.message(), "dist overflow");
        let mut reader = LzmaReader::new(input.as_slice(), size, 3, 0, 2, 4096, None)
            .map_err(|_| "not opened")
            .unwrap();
        assert!(matches!(
            reader.read(&mut [0u8; 100]),
            Err(ReadError::Data(Error::DistOverflow))
        ));
    }
    // A short repeat of nothing.
    let mut enc = Encoder::new(3, 0, 2);
    enc.put_rep(0, 0, 1);
    let input = enc.finish();
    let mut stream = LzmaStream::new(100, 3, 0, 2, 4096, None).unwrap();
    assert_eq!(
        feed_all(&mut stream, &input, 100, 100),
        Err(Error::DistOverflow)
    );
    // An end marker where the size is known.
    let input = encode(&data, 0, 4096, [3, 0, 2], true);
    let mut stream = LzmaStream::new(501, 3, 0, 2, 4096, None).unwrap();
    assert_eq!(
        feed_all(&mut stream, &input, 100, 100),
        Err(Error::DistOverflow)
    );
    // An end marker with a coder that is not at zero behind it.
    let mut input = RAW.to_vec();
    let last = input.len() - 1;
    input[last] = 1;
    let mut stream = LzmaStream::new(u64::MAX, 3, 0, 2, 4096, None).unwrap();
    assert_eq!(
        feed_all(&mut stream, &input, 100, 100),
        Err(Error::NotTerminated)
    );
    // A copy that runs past the size.
    let same = [7u8; 50];
    let input = encode(&same, 0, 4096, [3, 0, 2], false);
    let mut stream = LzmaStream::new(20, 3, 0, 2, 4096, None).unwrap();
    assert_eq!(
        feed_all(&mut stream, &input, 100, 100),
        Err(Error::EndNotFinished)
    );
    let mut reader = LzmaReader::new(input.as_slice(), 20, 3, 0, 2, 4096, None)
        .map_err(|_| "not opened")
        .unwrap();
    assert!(matches!(
        reader.read(&mut [0u8; 100]),
        Err(ReadError::Data(Error::EndNotFinished))
    ));
}

#[test]
fn parameters_that_are_wrong_are_refused() {
    let stream = |lc, lp, pb, dict| LzmaStream::new(9, lc, lp, pb, dict, None).err();
    assert_eq!(stream(9, 0, 0, 4096), Some(Error::InvalidLcLpPb));
    assert_eq!(stream(0, 5, 0, 4096), Some(Error::InvalidLcLpPb));
    assert_eq!(stream(0, 0, 5, 4096), Some(Error::InvalidLcLpPb));
    assert_eq!(stream(0, 0, 0, u32::MAX), Some(Error::DictSizeTooLarge));
    assert!(stream(8, 4, 4, 0).is_none());
    let stream = |props, dict| LzmaStream::new_with_props(9, props, dict, None).err();
    assert_eq!(stream(225, 4096), Some(Error::InvalidPropsByte));
    assert_eq!(stream(224, u32::MAX), Some(Error::DictSizeTooLarge));
    assert!(stream(224, 4096).is_none());
    let reader = |props, dict, data: &[u8]| {
        match LzmaReader::new_with_props(data, 9, props, dict, None).err() {
            Some(ReadError::Data(error)) => Some(error),
            _ => None,
        }
    };
    assert_eq!(reader(225, 4096, &RAW), Some(Error::InvalidPropsByte));
    assert_eq!(reader(93, u32::MAX, &RAW), Some(Error::DictSizeTooLarge));
    assert_eq!(reader(93, 4096, &RAW[1..]), Some(Error::FirstByteNotZero));
    assert_eq!(reader(93, 4096, &RAW[..4]), Some(Error::UnexpectedEnd));
    let file = |header: &[u8]| {
        let mut stream = LzmaStream::new_mem_limit(u32::MAX, None);
        let from_stream = feed_all(&mut stream, header, 5, 5).unwrap_err();
        match LzmaReader::new_mem_limit(header, u32::MAX, None).err() {
            Some(ReadError::Data(error)) => assert_eq!(error, from_stream),
            _ => panic!("opened"),
        }
        from_stream
    };
    let mut header = hello_file();
    assert_eq!(file(&header[..12]), Error::UnexpectedEnd);
    assert_eq!(file(&header[..17]), Error::UnexpectedEnd);
    header[0] = 225;
    assert_eq!(file(&header), Error::InvalidPropsByte);
    header[1..5].copy_from_slice(&[255; 4]);
    assert_eq!(file(&header), Error::DictSizeTooLarge);
}

#[test]
fn the_memory_that_decoding_takes() {
    assert_eq!(get_memory_usage(0, 0, 0), Ok(10 + 4 + 1));
    assert_eq!(get_memory_usage(1 << 23, 3, 0), Ok(10 + 8192 + 12));
    assert_eq!(get_memory_usage(4097, 8, 4), Ok(10 + 4 + 6144));
    assert_eq!(get_memory_usage(4096, 9, 0), Err(Error::InvalidLcLp));
    assert_eq!(get_memory_usage(4096, 0, 5), Err(Error::InvalidLcLp));
    assert_eq!(get_memory_usage(u32::MAX, 0, 0), Err(Error::DictSizeTooLarge));
    assert_eq!(get_memory_usage_by_props(1 << 23, 93), Ok(10 + 8192 + 12));
    assert_eq!(
        get_memory_usage_by_props(1 << 23, 225),
        Err(Error::InvalidPropsByte)
    );
    assert_eq!(
        get_memory_usage_by_props(0xFFFF_FFF1, 225),
        Err(Error::DictSizeTooLarge)
    );
}

#[test]
fn a_failed_reader_can_be_asked_again() {
    let (compressed, size) = hello(true);
    let source = FailsAfter {
        data: &compressed[..10],
        kind: io::ErrorKind::WouldBlock,
        message: "not now",
    };
    let mut reader = hello_reader(source, size);
    let mut buf = [0u8; 100];
    assert!(matches!(reader.read(&mut buf), Err(ReadError::Source(_))));
    assert!(matches!(reader.read(&mut buf), Err(ReadError::Source(_))));
}

#[test]
fn a_wrong_stream_is_refused_alike_however_it_is_cut() {
    let data = sample(3_000);
    let input = encode(&data, 0, 4096, [3, 0, 2], true);
    for at in [7, 100, 200, input.len() - 8] {
        let mut wrong = input.clone();
        wrong[at] ^= 0x55;
        let decode = |take, give| {
            let mut stream = LzmaStream::new(u64::MAX, 3, 0, 2, 4096, None).unwrap();
            feed_all(&mut stream, &wrong, take, give).map(|(out, _)| out)
        };
        let whole = decode(100_000, 100_000);
        assert!(whole.as_ref().ok() != Some(&data));
        for (take, give) in [(1, 1), (21, 4096), (1000, 33)] {
            assert!(decode(take, give) == whole, "{at} {take} {give}");
        }
    }
}

/// Bytes without a pattern.
fn noise(len: usize) -> Vec<u8> {
    let mut state = 0x1234_5678u32;
    (0..len)
        .map(|_| {
            state ^= state << 13;
            state ^= state >> 17;
            state ^= state << 5;
            (state >> 24) as u8
        })
        .collect()
}

#[test]
fn what_follows_the_data_comes_back_from_the_reader() {
    let mut data = noise(150_000);
    data.extend_from_slice(&sample(100_000));
    for end_marker in [false, true] {
        let mut compressed = encode(&data, 0, 1 << 18, [3, 0, 2], end_marker);
        assert!(compressed.len() > 2 * 65_536);
        let trailer: Vec<u8> = (0..100_000u32).map(|i| (i % 251) as u8).collect();
        compressed.extend_from_slice(&trailer);
        let size = size_of(&data, end_marker);
        let mut reader = hello_reader(compressed.as_slice(), size);
        let mut out = Vec::new();
        read_to_end(&mut reader, &mut out).unwrap();
        assert!(out == data);
        let (inner, mut rest) = reader.into_parts();
        rest.extend_from_slice(inner);
        assert!(rest == trailer, "end marker {end_marker}");
    }
}

#[test]
fn data_of_known_size_may_have_an_end_marker_behind_it() {
    let data = sample(5_000);
    let compressed = encode(&data, 0, 1 << 18, [3, 0, 2], true);
    let mut reader = hello_reader(compressed.as_slice(), 5_000);
    let mut out = Vec::new();
    read_to_end(&mut reader, &mut out).unwrap();
    assert!(out == data);
    let mut stream = LzmaStream::new_with_props(5_000, 93, 1 << 18, None).unwrap();
    let (out, rest) = feed_all(&mut stream, &compressed, 100, 100).unwrap();
    assert!(out == data);
    assert!(rest > 0);
}

#[test]
fn what_follows_the_payload_is_not_used() {
    let mut input = RAW.to_vec();
    input.extend_from_slice(b"TAIL");
    let mut stream = LzmaStream::new_with_props(u64::MAX, 93, 0x0080_0000, None).unwrap();
    let mut buf = [0u8; 1024];
    let result = stream.process(&input, &mut buf, Action::Finish).unwrap();
    assert_eq!(result.status, Status::StreamEnd);
    assert_eq!(&buf[..result.bytes_produced], b"Hello, world!");
    let mut rest = stream.unused_input().to_vec();
    rest.extend_from_slice(&input[result.bytes_consumed..]);
    assert_eq!(rest, b"TAIL");
    // What is over stays over, whatever is offered.
    for action in [Action::Run, Action::Finish] {
        let unused = stream.unused_input().to_vec();
        let result = stream.process(b"more of it", &mut buf, action).unwrap();
        assert_eq!(result.bytes_consumed, 0);
        assert_eq!(result.bytes_produced, 0);
        assert_eq!(result.status, Status::StreamEnd);
        assert!(stream.is_finished());
        assert_eq!(stream.unused_input(), unused);
    }
}

#[test]
fn nothing_is_unused_before_the_stream_has_ended() {
    let data = sample(300);
    let mut delta = data.clone();
    for i in (1..delta.len()).rev() {
        delta[i] = delta[i].wrapping_sub(delta[i - 1]);
    }
    let mut input = encode(&delta, 0, 4096, [3, 0, 2], true);
    input.extend_from_slice(b"0123456789");
    let mut stream = LzmaStream::new(u64::MAX, 3, 0, 2, 4096, None).unwrap();
    stream
        .set_filters(&[FilterConfig::new(FilterType::Delta, 1)])
        .unwrap();
    let mut out = Vec::new();
    let mut pos = 0;
    loop {
        let mut byte = [0u8; 1];
        let result = stream
            .process(&input[pos..], &mut byte, Action::Finish)
            .unwrap();
        pos += result.bytes_consumed;
        out.extend_from_slice(&byte[..result.bytes_produced]);
        if result.status == Status::StreamEnd {
            break;
        }
        assert!(stream.unused_input().is_empty());
    }
    assert!(out == data);
    assert_eq!(stream.total_out(), 300);
    let mut rest = stream.unused_input().to_vec();
    rest.extend_from_slice(&input[pos..]);
    assert_eq!(rest, b"0123456789");
}

#[test]
fn no_more_comes_out_than_the_size_allows() {
    let same = [7u8; 50];
    let input = encode(&same, 0, 4096, [3, 0, 2], false);
    let mut stream = LzmaStream::new(20, 3, 0, 2, 4096, None).unwrap();
    let mut byte = [0u8; 1];
    let mut pos = 0;
    while let Ok(result) = stream.process(&input[pos..], &mut byte, Action::Finish) {
        pos += result.bytes_consumed;
        assert!(stream.total_out() <= 20);
        assert_eq!(result.status, Status::Running);
    }
    assert!(stream.total_out() <= 20);
}

#[test]
fn a_pass_is_made_without_any_output() {
    // All of the input is taken in, and what is wrong with the header is said.
    let mut file = hello_file();
    let mut stream = LzmaStream::new_mem_limit(u32::MAX, None);
    let result = stream.process(&file, &mut [], Action::Run).unwrap();
    assert_eq!(result.bytes_consumed, file.len());
    assert_eq!(result.bytes_produced, 0);
    assert_eq!(result.status, Status::Running);
    file[0] = 225;
    let mut stream = LzmaStream::new_mem_limit(u32::MAX, None);
    assert_eq!(
        stream.process(&file, &mut [], Action::Run),
        Err(Error::InvalidPropsByte)
    );
}

#[test]
fn an_end_that_is_not_clean_is_not_an_end() {
    let (mut lz, mut lzma, mut core) = parts();
    let mut limits = limits(None);
    let mut payload = RAW[5..].to_vec();
    let last = payload.len() - 1;
    payload[last] = 1;
    let result = core.feed(&mut lz, &mut lzma, &payload, &mut limits, InputEnd::Caller);
    assert_eq!(result, Err(Error::NotTerminated));
    assert!(!limits.end_reached);
}

#[test]
fn nothing_is_taken_in_behind_the_end() {
    let (mut lz, mut lzma, mut core) = parts();
    let mut limits = limits(None);
    core.feed(&mut lz, &mut lzma, &RAW[5..], &mut limits, InputEnd::Caller)
        .unwrap();
    assert!(limits.end_reached);
    for input_end in [InputEnd::More, InputEnd::Caller, InputEnd::Length] {
        let result = core.feed(&mut lz, &mut lzma, &RAW, &mut limits, input_end);
        assert_eq!(result, Ok((0, 0)));
        assert!(limits.end_reached);
    }
    // Where no end marker may stand, it is found again.
    limits.end_reached = false;
    limits.allow_end_marker = false;
    let result = core.feed(&mut lz, &mut lzma, &RAW, &mut limits, InputEnd::More);
    assert_eq!(result, Err(Error::DistOverflow));
    assert!(!limits.end_reached);
}

#[test]
fn nothing_is_read_where_there_is_no_room_for_it() {
    let (compressed, size) = hello(true);
    // Of data that is cut short nothing is wrong before something is asked for.
    let mut reader = hello_reader(&compressed[..5], size);
    assert!(matches!(reader.read(&mut []), Ok(0)));
    assert!(matches!(
        reader.read(&mut [0u8; 8]),
        Err(ReadError::Data(Error::UnexpectedEnd))
    ));

    let mut reader = hello_reader(compressed.as_slice(), size);
    assert!(matches!(reader.read(&mut []), Ok(0)));
    let mut buf = [0u8; 100];
    assert!(matches!(reader.read(&mut buf), Ok(13)));
    assert_eq!(&buf[..13], b"Hello, world!");
    for _ in 0..3 {
        assert!(matches!(reader.read(&mut buf), Ok(0)));
    }
}

#[test]
fn an_error_in_the_middle_is_no_end() {
    let data = sample(2_000);
    let mut input = encode(&data, 0, 4096, [3, 0, 2], true);
    // A distance that reaches too far back, somewhere along the payload.
    let mut failed = 0;
    for at in 20..input.len() {
        input[at] ^= 0xFF;
        let mut stream = LzmaStream::new(u64::MAX, 3, 0, 2, 4096, None).unwrap();
        let mut buf = vec![0u8; 100_000];
        if stream.process(&input, &mut buf, Action::Run).is_err() {
            failed += 1;
            assert!(!stream.is_finished());
            assert!(stream.unused_input().is_empty());
        }
        input[at] ^= 0xFF;
    }
    assert!(failed > 0);
}

/// Decodes `len` bytes out of `payload`, at most `most` of them at a time.
/// Returns them with the registers of the coder and how many bytes were taken.
fn run_at_most(payload: &[u8], len: usize, most: usize) -> (Vec<u8>, u32, u32, usize) {
    let (mut lz, mut lzma) = build_decoders(u64::MAX, 3, 0, 2, 4096, None).unwrap();
    lz.ensure_capacity().unwrap();
    let code = u32::from_be_bytes([payload[1], payload[2], payload[3], payload[4]]);
    let state = RangeCoderState {
        range: 0xFFFF_FFFF,
        code,
    };
    let mut rc = RangeDecoder::from_parts(SliceRangeReader::new(&payload[5..], 20), state);
    let mut out = vec![0u8; len];
    let mut done = 0;
    while done < len {
        lz.set_limit(most.min(len - done));
        lzma.decode(&mut lz, &mut rc).unwrap();
        done += lz.flush_at(&mut out, done);
    }
    let state = rc.state();
    (out, state.range, state.code, rc.inner.pos())
}

#[test]
fn a_run_is_one_symbol_after_the_other() {
    let data = sample(20_000);
    let mut payload = encode(&data, 0, 4096, [3, 0, 2], false);
    let len = payload.len() - 5;
    payload.extend_from_slice(&[0xAA; 40]);
    let whole = run_at_most(&payload, data.len(), usize::MAX);
    assert_eq!(whole.0, data);
    assert_eq!(whole.3, len);
    for most in [1, 2, 7, 300] {
        assert_eq!(run_at_most(&payload, data.len(), most), whole);
    }
}
