//! The CRC-32 (ISO-HDLC) and the CRC-64 (XZ), eight bytes at a time.
//!
//! Both are the byte at a time method unrolled eight times over eight tables.
//! Table `k` carries each byte's contribution from `k` bytes further back, so
//! one step takes eight bytes with eight lookups and no dependency between
//! them. That this is the same is a matter of the checksums being linear.

use vstd::prelude::*;

verus! {

pub const CRC32_POLY: u32 = 0xEDB8_8320;

pub const CRC64_POLY: u64 = 0xC96C_5795_D787_0F42;

/// One bit of a CRC-32.
pub open spec fn crc32_bit(crc: u32) -> u32 {
    if crc & 1 != 0 {
        (crc >> 1) ^ CRC32_POLY
    } else {
        crc >> 1
    }
}

/// Eight bits of a CRC-32.
pub open spec fn crc32_shift(crc: u32) -> u32 {
    crc32_bit(
        crc32_bit(crc32_bit(crc32_bit(crc32_bit(crc32_bit(crc32_bit(crc32_bit(crc))))))),
    )
}

/// A CRC-32 with one byte more.
pub open spec fn crc32_next(crc: u32, byte: u8) -> u32 {
    crc32_shift(crc ^ (byte as u32))
}

/// A CRC-32 with the bytes of `data` more.
pub open spec fn crc32_all(crc: u32, data: Seq<u8>) -> u32
    decreases data.len(),
{
    if data.len() == 0 {
        crc
    } else {
        crc32_next(crc32_all(crc, data.drop_last()), data.last())
    }
}

/// `n` times eight bits of a CRC-32.
pub open spec fn crc32_after(n: nat, crc: u32) -> u32
    decreases n,
{
    if n == 0 {
        crc
    } else {
        crc32_after((n - 1) as nat, crc32_shift(crc))
    }
}

/// It does not matter in how many pieces the data comes.
pub proof fn lemma_crc32_pieces(crc: u32, a: Seq<u8>, b: Seq<u8>)
    ensures
        crc32_all(crc, a + b) == crc32_all(crc32_all(crc, a), b),
    decreases b.len(),
{
    if b.len() == 0 {
        assert(a + b =~= a);
    } else {
        assert((a + b).drop_last() =~= a + b.drop_last());
        lemma_crc32_pieces(crc, a, b.drop_last());
    }
}

proof fn lemma_crc32_bit_linear(x: u32, y: u32)
    ensures
        crc32_bit(x ^ y) == crc32_bit(x) ^ crc32_bit(y),
{
    assert(crc32_bit(x ^ y) == crc32_bit(x) ^ crc32_bit(y)) by (bit_vector);
}

proof fn lemma_crc32_shift_linear(x: u32, y: u32)
    ensures
        crc32_shift(x ^ y) == crc32_shift(x) ^ crc32_shift(y),
{
    let (x1, y1) = (crc32_bit(x), crc32_bit(y));
    let (x2, y2) = (crc32_bit(x1), crc32_bit(y1));
    let (x3, y3) = (crc32_bit(x2), crc32_bit(y2));
    let (x4, y4) = (crc32_bit(x3), crc32_bit(y3));
    let (x5, y5) = (crc32_bit(x4), crc32_bit(y4));
    let (x6, y6) = (crc32_bit(x5), crc32_bit(y5));
    let (x7, y7) = (crc32_bit(x6), crc32_bit(y6));
    lemma_crc32_bit_linear(x, y);
    lemma_crc32_bit_linear(x1, y1);
    lemma_crc32_bit_linear(x2, y2);
    lemma_crc32_bit_linear(x3, y3);
    lemma_crc32_bit_linear(x4, y4);
    lemma_crc32_bit_linear(x5, y5);
    lemma_crc32_bit_linear(x6, y6);
    lemma_crc32_bit_linear(x7, y7);
}

proof fn lemma_crc32_after_linear(n: nat, x: u32, y: u32)
    ensures
        crc32_after(n, x ^ y) == crc32_after(n, x) ^ crc32_after(n, y),
    decreases n,
{
    if n > 0 {
        lemma_crc32_shift_linear(x, y);
        lemma_crc32_after_linear((n - 1) as nat, crc32_shift(x), crc32_shift(y));
    }
}

/// Where the last eight bits are zero, eight bits only move the rest.
proof fn lemma_crc32_shift_zero(x: u32)
    requires
        x & 0xFF == 0,
    ensures
        crc32_shift(x) == x >> 8,
{
    assert(x & 0xFF == 0 ==> crc32_shift(x) == x >> 8) by (bit_vector);
}

/// A byte further up is the same byte so many steps later.
proof fn lemma_crc32_after_up(n: nat, b: u32)
    requires
        b <= 0xFF,
    ensures
        n >= 1 ==> crc32_after(n, b << 8) == crc32_after((n - 1) as nat, b),
        n >= 2 ==> crc32_after(n, b << 16) == crc32_after((n - 2) as nat, b),
        n >= 3 ==> crc32_after(n, b << 24) == crc32_after((n - 3) as nat, b),
{
    assert((b << 8) & 0xFF == 0 && (b << 16) & 0xFF == 0 && (b << 24) & 0xFF == 0) by (bit_vector);
    assert(b <= 0xFF ==> (b << 8) >> 8 == b && (b << 16) >> 8 == b << 8
        && (b << 24) >> 8 == b << 16)
        by (bit_vector);
    lemma_crc32_shift_zero(b << 8);
    lemma_crc32_shift_zero(b << 16);
    lemma_crc32_shift_zero(b << 24);
    if n >= 2 {
        reveal_with_fuel(crc32_after, 2);
    }
    if n >= 3 {
        reveal_with_fuel(crc32_after, 3);
    }
}

proof fn lemma_crc32_after_chain(n: nat, m: nat, x: u32)
    ensures
        crc32_after(n, crc32_after(m, x)) == crc32_after(n + m, x),
    decreases m,
{
    if m > 0 {
        lemma_crc32_after_chain(n, (m - 1) as nat, crc32_shift(x));
        assert((n + m - 1) as nat == n + (m - 1) as nat);
    }
}

/// Eight bits of a CRC-32 go by its last byte, and move the rest.
proof fn lemma_crc32_lookup(x: u32)
    ensures
        crc32_shift(x) == (x >> 8) ^ crc32_shift(x & 0xFF),
{
    let high = x & 0xFFFF_FF00;
    assert(x == high ^ (x & 0xFF) && high & 0xFF == 0 && high >> 8 == x >> 8) by (bit_vector)
        requires
            high == x & 0xFFFF_FF00,
    ;
    lemma_crc32_shift_linear(high, x & 0xFF);
    lemma_crc32_shift_zero(high);
}

/// Four bytes of a CRC-32, all at once.
proof fn lemma_crc32_four(crc: u32, b0: u8, b1: u8, b2: u8, b3: u8)
    ensures
        crc32_next(crc32_next(crc32_next(crc32_next(crc, b0), b1), b2), b3) == crc32_after(
            4,
            crc ^ (b0 as u32) ^ ((b1 as u32) << 8) ^ ((b2 as u32) << 16) ^ ((b3 as u32) << 24),
        ),
{
    let x1 = crc ^ (b0 as u32);
    let x2 = x1 ^ ((b1 as u32) << 8);
    let x3 = x2 ^ ((b2 as u32) << 16);
    let x4 = x3 ^ ((b3 as u32) << 24);
    reveal_with_fuel(crc32_after, 5);
    lemma_crc32_after_up(1, b1 as u32);
    lemma_crc32_after_linear(1, x1, (b1 as u32) << 8);
    assert(crc32_after(1, x2) == crc32_after(1, x1) ^ (b1 as u32));
    lemma_crc32_after_chain(1, 1, x2);
    lemma_crc32_after_up(2, b2 as u32);
    lemma_crc32_after_linear(2, x2, (b2 as u32) << 16);
    assert(crc32_after(2, x3) == crc32_after(2, x2) ^ (b2 as u32));
    lemma_crc32_after_chain(1, 2, x3);
    lemma_crc32_after_up(3, b3 as u32);
    lemma_crc32_after_linear(3, x3, (b3 as u32) << 24);
    assert(crc32_after(3, x4) == crc32_after(3, x3) ^ (b3 as u32));
    lemma_crc32_after_chain(1, 3, x4);
}

/// The four bytes of a word, taken apart.
proof fn lemma_crc32_word(n: nat, x: u32)
    requires
        n >= 3,
    ensures
        crc32_after(n, x) == crc32_after(n, x & 0xFF) ^ crc32_after(
            (n - 1) as nat,
            (x >> 8) & 0xFF,
        ) ^ crc32_after((n - 2) as nat, (x >> 16) & 0xFF) ^ crc32_after((n - 3) as nat, x >> 24),
{
    let b0 = x & 0xFF;
    let b1 = (x >> 8) & 0xFF;
    let b2 = (x >> 16) & 0xFF;
    let b3 = x >> 24;
    assert(x == b0 ^ (b1 << 8) ^ (b2 << 16) ^ (b3 << 24) && b1 <= 0xFF && b2 <= 0xFF && b3 <= 0xFF)
        by (bit_vector)
        requires
            b0 == x & 0xFF,
            b1 == (x >> 8) & 0xFF,
            b2 == (x >> 16) & 0xFF,
            b3 == x >> 24,
    ;
    lemma_crc32_after_linear(n, b0, b1 << 8);
    lemma_crc32_after_linear(n, b0 ^ (b1 << 8), b2 << 16);
    lemma_crc32_after_linear(n, b0 ^ (b1 << 8) ^ (b2 << 16), b3 << 24);
    lemma_crc32_after_up(n, b1);
    lemma_crc32_after_up(n, b2);
    lemma_crc32_after_up(n, b3);
}

/// Eight bytes of a CRC-32, by the contribution of each.
proof fn lemma_crc32_eight(crc: u32, d: Seq<u8>, low: u32)
    requires
        d.len() == 8,
        low == crc ^ (d[0] as u32) ^ ((d[1] as u32) << 8) ^ ((d[2] as u32) << 16) ^ ((d[3] as u32)
            << 24),
    ensures
        crc32_all(crc, d) == crc32_after(8, low & 0xFF) ^ crc32_after(7, (low >> 8) & 0xFF)
            ^ crc32_after(6, (low >> 16) & 0xFF) ^ crc32_after(5, low >> 24) ^ crc32_after(
            4,
            d[4] as u32,
        ) ^ crc32_after(3, d[5] as u32) ^ crc32_after(2, d[6] as u32) ^ crc32_after(
            1,
            d[7] as u32,
        ),
{
    let c4 = crc32_all(crc, d.take(4));
    assert(c4 == crc32_next(
        crc32_next(crc32_next(crc32_next(crc, d[0]), d[1]), d[2]),
        d[3],
    )) by {
        reveal_with_fuel(crc32_all, 5);
        assert(d.take(4).drop_last() =~= d.take(3));
        assert(d.take(3).drop_last() =~= d.take(2));
        assert(d.take(2).drop_last() =~= d.take(1));
        assert(d.take(1).drop_last() =~= d.take(0));
    }
    assert(crc32_all(crc, d) == crc32_next(
        crc32_next(crc32_next(crc32_next(c4, d[4]), d[5]), d[6]),
        d[7],
    )) by {
        reveal_with_fuel(crc32_all, 5);
        assert(d.drop_last() =~= d.take(7));
        assert(d.take(7).drop_last() =~= d.take(6));
        assert(d.take(6).drop_last() =~= d.take(5));
        assert(d.take(5).drop_last() =~= d.take(4));
    }
    lemma_crc32_four(crc, d[0], d[1], d[2], d[3]);
    lemma_crc32_four(c4, d[4], d[5], d[6], d[7]);
    let (b4, b5, b6, b7) = (d[4] as u32, d[5] as u32, d[6] as u32, d[7] as u32);
    lemma_crc32_after_linear(4, c4, b4);
    lemma_crc32_after_linear(4, c4 ^ b4, b5 << 8);
    lemma_crc32_after_linear(4, c4 ^ b4 ^ (b5 << 8), b6 << 16);
    lemma_crc32_after_linear(4, c4 ^ b4 ^ (b5 << 8) ^ (b6 << 16), b7 << 24);
    lemma_crc32_after_up(4, b5);
    lemma_crc32_after_up(4, b6);
    lemma_crc32_after_up(4, b7);
    lemma_crc32_after_chain(4, 4, low);
    lemma_crc32_word(8, low);
}

fn crc32_one_bit(crc: u32) -> (r: u32)
    ensures
        r == crc32_bit(crc),
{
    if crc & 1 != 0 {
        (crc >> 1) ^ CRC32_POLY
    } else {
        crc >> 1
    }
}

/// A CRC-32 with one byte more.
pub fn crc32_byte(crc: u32, byte: u8) -> (r: u32)
    ensures
        r == crc32_next(crc, byte),
{
    let c = crc ^ (byte as u32);
    let c = crc32_one_bit(crc32_one_bit(crc32_one_bit(crc32_one_bit(c))));
    crc32_one_bit(crc32_one_bit(crc32_one_bit(crc32_one_bit(c))))
}

/// The eight tables of a CRC-32, one behind the other.
fn make_crc32_tables() -> (t: Vec<u32>)
    ensures
        t@.len() == 2048,
        forall|j: int|
            0 <= j < 2048 ==> #[trigger] t@[j] == crc32_after(
                (j / 256 + 1) as nat,
                (j % 256) as u32,
            ),
{
    let mut t: Vec<u32> = Vec::new();
    while t.len() < 256
        invariant
            t@.len() <= 256,
            forall|j: int|
                0 <= j < t@.len() ==> #[trigger] t@[j] == crc32_after(
                    (j / 256 + 1) as nat,
                    (j % 256) as u32,
                ),
        decreases 256 - t@.len(),
    {
        let i = t.len() as u8;
        proof {
            reveal_with_fuel(crc32_after, 2);
            assert((0u32 ^ (i as u32)) == i as u32) by (bit_vector);
        }
        t.push(crc32_byte(0, i));
    }
    while t.len() < 2048
        invariant
            256 <= t@.len() <= 2048,
            forall|j: int|
                0 <= j < t@.len() ==> #[trigger] t@[j] == crc32_after(
                    (j / 256 + 1) as nat,
                    (j % 256) as u32,
                ),
        decreases 2048 - t@.len(),
    {
        let n = t.len();
        let crc = t[n - 256];
        let last = crc & 0xFF;
        proof {
            let k = (n / 256) as nat;
            let i = (n % 256) as u32;
            assert((n - 256) / 256 + 1 == k);
            assert((n - 256) % 256 == i);
            lemma_crc32_after_chain(1, k, i);
            reveal_with_fuel(crc32_after, 2);
            lemma_crc32_lookup(crc);
            assert(last <= 0xFF) by (bit_vector)
                requires
                    last == crc & 0xFF,
            ;
            assert(t@[last as int] == crc32_after(1, last));
        }
        t.push((crc >> 8) ^ t[last as usize]);
    }
    t
}

/// A CRC-32 with the bytes of `data` more, eight at a time.
pub fn crc32_by_eight(crc: u32, data: &[u8]) -> (r: u32)
    ensures
        r == crc32_all(crc, data@),
{
    let mut crc = crc;
    let ghost first = crc;
    let len = data.len();
    let mut i: usize = 0;
    if len >= 8 {
        let t = make_crc32_tables();
        while len - i >= 8
            invariant
                i <= len,
                len == data@.len(),
                crc == crc32_all(first, data@.take(i as int)),
                t@.len() == 2048,
                forall|j: int|
                    0 <= j < 2048 ==> #[trigger] t@[j] == crc32_after(
                        (j / 256 + 1) as nat,
                        (j % 256) as u32,
                    ),
            decreases len - i,
        {
            let low = crc ^ (data[i] as u32) ^ ((data[i + 1] as u32) << 8) ^ ((data[i + 2] as u32)
                << 16) ^ ((data[i + 3] as u32) << 24);
            let l0 = low & 0xFF;
            let l1 = (low >> 8) & 0xFF;
            let l2 = (low >> 16) & 0xFF;
            let l3 = low >> 24;
            proof {
                let d = data@.subrange(i as int, i + 8);
                lemma_crc32_eight(crc, d, low);
                lemma_crc32_pieces(first, data@.take(i as int), d);
                assert(data@.take(i as int) + d =~= data@.take(i + 8));
                assert(l0 <= 0xFF && l1 <= 0xFF && l2 <= 0xFF && l3 <= 0xFF) by (bit_vector)
                    requires
                        l0 == low & 0xFF,
                        l1 == (low >> 8) & 0xFF,
                        l2 == (low >> 16) & 0xFF,
                        l3 == low >> 24,
                ;
            }
            crc = t[1792 + l0 as usize] ^ t[1536 + l1 as usize] ^ t[1280 + l2 as usize] ^ t[1024
                + l3 as usize] ^ t[768 + data[i + 4] as usize] ^ t[512 + data[i + 5] as usize]
                ^ t[256 + data[i + 6] as usize] ^ t[data[i + 7] as usize];
            i = i + 8;
        }
    }
    while i < len
        invariant
            i <= len,
            len == data@.len(),
            crc == crc32_all(first, data@.take(i as int)),
        decreases len - i,
    {
        proof {
            assert(data@.take(i + 1).drop_last() =~= data@.take(i as int));
        }
        crc = crc32_byte(crc, data[i]);
        i = i + 1;
    }
    assert(data@.take(len as int) =~= data@);
    crc
}

/// The CRC-32 of some data.
pub open spec fn crc32_of(data: Seq<u8>) -> u32 {
    crc32_all(0xFFFF_FFFF, data) ^ 0xFFFF_FFFF
}

/// A CRC-32 (ISO-HDLC) in the making.
#[derive(Clone, Copy)]
pub struct Crc32 {
    state: u32,
    data: Ghost<Seq<u8>>,
}

impl Crc32 {
    /// The data it was made of.
    pub closed spec fn data(&self) -> Seq<u8> {
        self.data@
    }

    pub closed spec fn wf(&self) -> bool {
        self.state == crc32_all(0xFFFF_FFFF, self.data@)
    }

    pub fn new() -> (c: Self)
        ensures
            c.wf(),
            c.data() == Seq::<u8>::empty(),
    {
        Crc32 { state: 0xFFFF_FFFF, data: Ghost(Seq::empty()) }
    }

    pub fn update(&mut self, data: &[u8])
        requires
            old(self).wf(),
        ensures
            final(self).wf(),
            final(self).data() == old(self).data() + data@,
    {
        proof {
            lemma_crc32_pieces(0xFFFF_FFFF, self.data@, data@);
        }
        self.state = crc32_by_eight(self.state, data);
        proof {
            self.data@ = self.data@ + data@;
        }
    }

    pub fn finalize(self) -> (r: u32)
        requires
            self.wf(),
        ensures
            r == crc32_of(self.data()),
    {
        self.state ^ 0xFFFF_FFFF
    }

    pub fn checksum(data: &[u8]) -> (r: u32)
        ensures
            r == crc32_of(data@),
    {
        let mut crc = Crc32::new();
        crc.update(data);
        assert(Seq::<u8>::empty() + data@ =~= data@);
        crc.finalize()
    }
}

/// One bit of a CRC-64.
pub open spec fn crc64_bit(crc: u64) -> u64 {
    if crc & 1 != 0 {
        (crc >> 1) ^ CRC64_POLY
    } else {
        crc >> 1
    }
}

/// Eight bits of a CRC-64.
pub open spec fn crc64_shift(crc: u64) -> u64 {
    crc64_bit(
        crc64_bit(crc64_bit(crc64_bit(crc64_bit(crc64_bit(crc64_bit(crc64_bit(crc))))))),
    )
}

/// A CRC-64 with one byte more.
pub open spec fn crc64_next(crc: u64, byte: u8) -> u64 {
    crc64_shift(crc ^ (byte as u64))
}

/// A CRC-64 with the bytes of `data` more.
pub open spec fn crc64_all(crc: u64, data: Seq<u8>) -> u64
    decreases data.len(),
{
    if data.len() == 0 {
        crc
    } else {
        crc64_next(crc64_all(crc, data.drop_last()), data.last())
    }
}

/// `n` times eight bits of a CRC-64.
pub open spec fn crc64_after(n: nat, crc: u64) -> u64
    decreases n,
{
    if n == 0 {
        crc
    } else {
        crc64_after((n - 1) as nat, crc64_shift(crc))
    }
}

/// It does not matter in how many pieces the data comes.
pub proof fn lemma_crc64_pieces(crc: u64, a: Seq<u8>, b: Seq<u8>)
    ensures
        crc64_all(crc, a + b) == crc64_all(crc64_all(crc, a), b),
    decreases b.len(),
{
    if b.len() == 0 {
        assert(a + b =~= a);
    } else {
        assert((a + b).drop_last() =~= a + b.drop_last());
        lemma_crc64_pieces(crc, a, b.drop_last());
    }
}

proof fn lemma_crc64_bit_linear(x: u64, y: u64)
    ensures
        crc64_bit(x ^ y) == crc64_bit(x) ^ crc64_bit(y),
{
    assert(crc64_bit(x ^ y) == crc64_bit(x) ^ crc64_bit(y)) by (bit_vector);
}

proof fn lemma_crc64_shift_linear(x: u64, y: u64)
    ensures
        crc64_shift(x ^ y) == crc64_shift(x) ^ crc64_shift(y),
{
    let (x1, y1) = (crc64_bit(x), crc64_bit(y));
    let (x2, y2) = (crc64_bit(x1), crc64_bit(y1));
    let (x3, y3) = (crc64_bit(x2), crc64_bit(y2));
    let (x4, y4) = (crc64_bit(x3), crc64_bit(y3));
    let (x5, y5) = (crc64_bit(x4), crc64_bit(y4));
    let (x6, y6) = (crc64_bit(x5), crc64_bit(y5));
    let (x7, y7) = (crc64_bit(x6), crc64_bit(y6));
    lemma_crc64_bit_linear(x, y);
    lemma_crc64_bit_linear(x1, y1);
    lemma_crc64_bit_linear(x2, y2);
    lemma_crc64_bit_linear(x3, y3);
    lemma_crc64_bit_linear(x4, y4);
    lemma_crc64_bit_linear(x5, y5);
    lemma_crc64_bit_linear(x6, y6);
    lemma_crc64_bit_linear(x7, y7);
}

proof fn lemma_crc64_after_linear(n: nat, x: u64, y: u64)
    ensures
        crc64_after(n, x ^ y) == crc64_after(n, x) ^ crc64_after(n, y),
    decreases n,
{
    if n > 0 {
        lemma_crc64_shift_linear(x, y);
        lemma_crc64_after_linear((n - 1) as nat, crc64_shift(x), crc64_shift(y));
    }
}

/// Where the last eight bits are zero, eight bits only move the rest.
proof fn lemma_crc64_shift_zero(x: u64)
    requires
        x & 0xFF == 0,
    ensures
        crc64_shift(x) == x >> 8,
{
    assert(x & 0xFF == 0 ==> crc64_shift(x) == x >> 8) by (bit_vector);
}

proof fn lemma_crc64_after_chain(n: nat, m: nat, x: u64)
    ensures
        crc64_after(n, crc64_after(m, x)) == crc64_after(n + m, x),
    decreases m,
{
    if m > 0 {
        lemma_crc64_after_chain(n, (m - 1) as nat, crc64_shift(x));
        assert((n + m - 1) as nat == n + (m - 1) as nat);
    }
}

/// Eight bits of a CRC-64 go by its last byte, and move the rest.
proof fn lemma_crc64_lookup(x: u64)
    ensures
        crc64_shift(x) == (x >> 8) ^ crc64_shift(x & 0xFF),
{
    let high = x & 0xFFFF_FFFF_FFFF_FF00;
    assert(x == high ^ (x & 0xFF) && high & 0xFF == 0 && high >> 8 == x >> 8) by (bit_vector)
        requires
            high == x & 0xFFFF_FFFF_FFFF_FF00,
    ;
    lemma_crc64_shift_linear(high, x & 0xFF);
    lemma_crc64_shift_zero(high);
}

/// A byte further up is the same byte one step later.
proof fn lemma_crc64_after_up(n: nat, y: u64)
    requires
        n >= 1,
        y & 0xFF == 0,
    ensures
        crc64_after(n, y) == crc64_after((n - 1) as nat, y >> 8),
{
    lemma_crc64_shift_zero(y);
}

/// A byte of a word contributes what it would so many steps later.
proof fn lemma_crc64_after_byte(n: nat, b: u64)
    requires
        b <= 0xFF,
        n >= 7,
    ensures
        crc64_after(n, b << 8) == crc64_after((n - 1) as nat, b),
        crc64_after(n, b << 16) == crc64_after((n - 2) as nat, b),
        crc64_after(n, b << 24) == crc64_after((n - 3) as nat, b),
        crc64_after(n, b << 32) == crc64_after((n - 4) as nat, b),
        crc64_after(n, b << 40) == crc64_after((n - 5) as nat, b),
        crc64_after(n, b << 48) == crc64_after((n - 6) as nat, b),
        crc64_after(n, b << 56) == crc64_after((n - 7) as nat, b),
{
    assert((b << 8) & 0xFF == 0 && (b << 8) >> 8 == b
        && (b << 16) & 0xFF == 0 && (b << 16) >> 8 == b << 8
        && (b << 24) & 0xFF == 0 && (b << 24) >> 8 == b << 16
        && (b << 32) & 0xFF == 0 && (b << 32) >> 8 == b << 24
        && (b << 40) & 0xFF == 0 && (b << 40) >> 8 == b << 32
        && (b << 48) & 0xFF == 0 && (b << 48) >> 8 == b << 40
        && (b << 56) & 0xFF == 0 && (b << 56) >> 8 == b << 48)
        by (bit_vector)
        requires
            b <= 0xFF,
    ;
    lemma_crc64_after_up(n, b << 8);
    lemma_crc64_after_up(n, b << 16);
    lemma_crc64_after_up((n - 1) as nat, b << 8);
    lemma_crc64_after_up(n, b << 24);
    lemma_crc64_after_up((n - 1) as nat, b << 16);
    lemma_crc64_after_up((n - 2) as nat, b << 8);
    lemma_crc64_after_up(n, b << 32);
    lemma_crc64_after_up((n - 1) as nat, b << 24);
    lemma_crc64_after_up((n - 2) as nat, b << 16);
    lemma_crc64_after_up((n - 3) as nat, b << 8);
    lemma_crc64_after_up(n, b << 40);
    lemma_crc64_after_up((n - 1) as nat, b << 32);
    lemma_crc64_after_up((n - 2) as nat, b << 24);
    lemma_crc64_after_up((n - 3) as nat, b << 16);
    lemma_crc64_after_up((n - 4) as nat, b << 8);
    lemma_crc64_after_up(n, b << 48);
    lemma_crc64_after_up((n - 1) as nat, b << 40);
    lemma_crc64_after_up((n - 2) as nat, b << 32);
    lemma_crc64_after_up((n - 3) as nat, b << 24);
    lemma_crc64_after_up((n - 4) as nat, b << 16);
    lemma_crc64_after_up((n - 5) as nat, b << 8);
    lemma_crc64_after_up(n, b << 56);
    lemma_crc64_after_up((n - 1) as nat, b << 48);
    lemma_crc64_after_up((n - 2) as nat, b << 40);
    lemma_crc64_after_up((n - 3) as nat, b << 32);
    lemma_crc64_after_up((n - 4) as nat, b << 24);
    lemma_crc64_after_up((n - 5) as nat, b << 16);
    lemma_crc64_after_up((n - 6) as nat, b << 8);
}

/// The first `k` steps bring a byte that is `k` bytes up to where it counts.
proof fn lemma_crc64_arrives(k: nat, b: u64, y: u64)
    requires
        b <= 0xFF,
        k <= 7,
        y == (if k == 0 {
            b
        } else if k == 1 {
            b << 8
        } else if k == 2 {
            b << 16
        } else if k == 3 {
            b << 24
        } else if k == 4 {
            b << 32
        } else if k == 5 {
            b << 40
        } else if k == 6 {
            b << 48
        } else {
            b << 56
        }),
    ensures
        crc64_after(k, y) == b,
    decreases k,
{
    assert((b << 8) & 0xFF == 0 && (b << 8) >> 8 == b
        && (b << 16) & 0xFF == 0 && (b << 16) >> 8 == b << 8
        && (b << 24) & 0xFF == 0 && (b << 24) >> 8 == b << 16
        && (b << 32) & 0xFF == 0 && (b << 32) >> 8 == b << 24
        && (b << 40) & 0xFF == 0 && (b << 40) >> 8 == b << 32
        && (b << 48) & 0xFF == 0 && (b << 48) >> 8 == b << 40
        && (b << 56) & 0xFF == 0 && (b << 56) >> 8 == b << 48)
        by (bit_vector)
        requires
            b <= 0xFF,
    ;
    if k > 0 {
        lemma_crc64_after_up(k, y);
        lemma_crc64_arrives((k - 1) as nat, b, y >> 8);
    }
}

/// One byte more of a CRC-64, as one byte more of a word.
proof fn lemma_crc64_word_step(k: nat, x: u64, byte: u8, y: u64)
    requires
        crc64_after(k, y) == byte as u64,
    ensures
        crc64_next(crc64_after(k, x), byte) == crc64_after(k + 1, x ^ y),
{
    lemma_crc64_after_linear(k, x, y);
    lemma_crc64_after_chain(1, k, x ^ y);
    reveal_with_fuel(crc64_after, 2);
}

/// Eight bytes of a CRC-64, all at once.
proof fn lemma_crc64_word(crc: u64, d: Seq<u8>)
    requires
        d.len() == 8,
    ensures
        crc64_all(crc, d) == crc64_after(
            8,
            crc ^ (d[0] as u64) ^ ((d[1] as u64) << 8) ^ ((d[2] as u64) << 16)
                ^ ((d[3] as u64) << 24) ^ ((d[4] as u64) << 32) ^ ((d[5] as u64) << 40)
                ^ ((d[6] as u64) << 48) ^ ((d[7] as u64) << 56),
        ),
{
    let x0 = crc;
    let y0 = d[0] as u64;
    let y1 = (d[1] as u64) << 8;
    let y2 = (d[2] as u64) << 16;
    let y3 = (d[3] as u64) << 24;
    let y4 = (d[4] as u64) << 32;
    let y5 = (d[5] as u64) << 40;
    let y6 = (d[6] as u64) << 48;
    let y7 = (d[7] as u64) << 56;
    let x1 = x0 ^ y0;
    let x2 = x1 ^ y1;
    let x3 = x2 ^ y2;
    let x4 = x3 ^ y3;
    let x5 = x4 ^ y4;
    let x6 = x5 ^ y5;
    let x7 = x6 ^ y6;
    let x8 = x7 ^ y7;
    lemma_crc64_arrives(0, d[0] as u64, y0);
    lemma_crc64_word_step(0, x0, d[0], y0);
    lemma_crc64_arrives(1, d[1] as u64, y1);
    lemma_crc64_word_step(1, x1, d[1], y1);
    lemma_crc64_arrives(2, d[2] as u64, y2);
    lemma_crc64_word_step(2, x2, d[2], y2);
    lemma_crc64_arrives(3, d[3] as u64, y3);
    lemma_crc64_word_step(3, x3, d[3], y3);
    lemma_crc64_arrives(4, d[4] as u64, y4);
    lemma_crc64_word_step(4, x4, d[4], y4);
    lemma_crc64_arrives(5, d[5] as u64, y5);
    lemma_crc64_word_step(5, x5, d[5], y5);
    lemma_crc64_arrives(6, d[6] as u64, y6);
    lemma_crc64_word_step(6, x6, d[6], y6);
    lemma_crc64_arrives(7, d[7] as u64, y7);
    lemma_crc64_word_step(7, x7, d[7], y7);
    reveal_with_fuel(crc64_all, 9);
    assert(d.drop_last() =~= d.take(7));
    assert(d.take(7).drop_last() =~= d.take(6));
    assert(d.take(6).drop_last() =~= d.take(5));
    assert(d.take(5).drop_last() =~= d.take(4));
    assert(d.take(4).drop_last() =~= d.take(3));
    assert(d.take(3).drop_last() =~= d.take(2));
    assert(d.take(2).drop_last() =~= d.take(1));
    assert(d.take(1).drop_last() =~= d.take(0));
}

/// Eight bytes of a CRC-64, by the contribution of each byte of the word.
proof fn lemma_crc64_eight(crc: u64, d: Seq<u8>, w: u64)
    requires
        d.len() == 8,
        w == crc ^ (d[0] as u64) ^ ((d[1] as u64) << 8) ^ ((d[2] as u64) << 16)
            ^ ((d[3] as u64) << 24) ^ ((d[4] as u64) << 32) ^ ((d[5] as u64) << 40)
            ^ ((d[6] as u64) << 48) ^ ((d[7] as u64) << 56),
    ensures
        crc64_all(crc, d) == crc64_after(8, w & 0xFF) ^ crc64_after(7, (w >> 8) & 0xFF)
            ^ crc64_after(6, (w >> 16) & 0xFF) ^ crc64_after(5, (w >> 24) & 0xFF)
            ^ crc64_after(4, (w >> 32) & 0xFF) ^ crc64_after(3, (w >> 40) & 0xFF)
            ^ crc64_after(2, (w >> 48) & 0xFF) ^ crc64_after(1, w >> 56),
{
    lemma_crc64_word(crc, d);
    let b0 = w & 0xFF;
    let b1 = (w >> 8) & 0xFF;
    let b2 = (w >> 16) & 0xFF;
    let b3 = (w >> 24) & 0xFF;
    let b4 = (w >> 32) & 0xFF;
    let b5 = (w >> 40) & 0xFF;
    let b6 = (w >> 48) & 0xFF;
    let b7 = w >> 56;
    assert(w == b0 ^ (b1 << 8) ^ (b2 << 16) ^ (b3 << 24) ^ (b4 << 32) ^ (b5 << 40) ^ (b6 << 48)
        ^ (b7 << 56)
        && b0 <= 0xFF && b1 <= 0xFF && b2 <= 0xFF && b3 <= 0xFF && b4 <= 0xFF && b5 <= 0xFF
            && b6 <= 0xFF && b7 <= 0xFF) by (bit_vector)
        requires
            b0 == w & 0xFF,
            b1 == (w >> 8) & 0xFF,
            b2 == (w >> 16) & 0xFF,
            b3 == (w >> 24) & 0xFF,
            b4 == (w >> 32) & 0xFF,
            b5 == (w >> 40) & 0xFF,
            b6 == (w >> 48) & 0xFF,
            b7 == w >> 56,
    ;
    let s0 = b0;
    let s1 = s0 ^ (b1 << 8);
    lemma_crc64_after_linear(8, s0, b1 << 8);
    lemma_crc64_after_byte(8, b1);
    let s2 = s1 ^ (b2 << 16);
    lemma_crc64_after_linear(8, s1, b2 << 16);
    lemma_crc64_after_byte(8, b2);
    let s3 = s2 ^ (b3 << 24);
    lemma_crc64_after_linear(8, s2, b3 << 24);
    lemma_crc64_after_byte(8, b3);
    let s4 = s3 ^ (b4 << 32);
    lemma_crc64_after_linear(8, s3, b4 << 32);
    lemma_crc64_after_byte(8, b4);
    let s5 = s4 ^ (b5 << 40);
    lemma_crc64_after_linear(8, s4, b5 << 40);
    lemma_crc64_after_byte(8, b5);
    let s6 = s5 ^ (b6 << 48);
    lemma_crc64_after_linear(8, s5, b6 << 48);
    lemma_crc64_after_byte(8, b6);
    let s7 = s6 ^ (b7 << 56);
    lemma_crc64_after_linear(8, s6, b7 << 56);
    lemma_crc64_after_byte(8, b7);
}

fn crc64_one_bit(crc: u64) -> (r: u64)
    ensures
        r == crc64_bit(crc),
{
    if crc & 1 != 0 {
        (crc >> 1) ^ CRC64_POLY
    } else {
        crc >> 1
    }
}

/// A CRC-64 with one byte more.
pub fn crc64_byte(crc: u64, byte: u8) -> (r: u64)
    ensures
        r == crc64_next(crc, byte),
{
    let c = crc ^ (byte as u64);
    let c = crc64_one_bit(crc64_one_bit(crc64_one_bit(crc64_one_bit(c))));
    crc64_one_bit(crc64_one_bit(crc64_one_bit(crc64_one_bit(c))))
}

/// The eight tables of a CRC-64, one behind the other.
fn make_crc64_tables() -> (t: Vec<u64>)
    ensures
        t@.len() == 2048,
        forall|j: int|
            0 <= j < 2048 ==> #[trigger] t@[j] == crc64_after(
                (j / 256 + 1) as nat,
                (j % 256) as u64,
            ),
{
    let mut t: Vec<u64> = Vec::new();
    while t.len() < 256
        invariant
            t@.len() <= 256,
            forall|j: int|
                0 <= j < t@.len() ==> #[trigger] t@[j] == crc64_after(
                    (j / 256 + 1) as nat,
                    (j % 256) as u64,
                ),
        decreases 256 - t@.len(),
    {
        let i = t.len() as u8;
        proof {
            reveal_with_fuel(crc64_after, 2);
            assert((0u64 ^ (i as u64)) == i as u64) by (bit_vector);
        }
        t.push(crc64_byte(0, i));
    }
    while t.len() < 2048
        invariant
            256 <= t@.len() <= 2048,
            forall|j: int|
                0 <= j < t@.len() ==> #[trigger] t@[j] == crc64_after(
                    (j / 256 + 1) as nat,
                    (j % 256) as u64,
                ),
        decreases 2048 - t@.len(),
    {
        let n = t.len();
        let crc = t[n - 256];
        let last = crc & 0xFF;
        proof {
            let k = (n / 256) as nat;
            let i = (n % 256) as u64;
            assert((n - 256) / 256 + 1 == k);
            assert((n - 256) % 256 == i);
            lemma_crc64_after_chain(1, k, i);
            reveal_with_fuel(crc64_after, 2);
            lemma_crc64_lookup(crc);
            assert(last <= 0xFF) by (bit_vector)
                requires
                    last == crc & 0xFF,
            ;
            assert(t@[last as int] == crc64_after(1, last));
        }
        t.push((crc >> 8) ^ t[last as usize]);
    }
    t
}

/// A CRC-64 with the bytes of `data` more, eight at a time.
pub fn crc64_by_eight(crc: u64, data: &[u8]) -> (r: u64)
    ensures
        r == crc64_all(crc, data@),
{
    let mut crc = crc;
    let ghost first = crc;
    let len = data.len();
    let mut i: usize = 0;
    if len >= 8 {
        let t = make_crc64_tables();
        while len - i >= 8
            invariant
                i <= len,
                len == data@.len(),
                crc == crc64_all(first, data@.take(i as int)),
                t@.len() == 2048,
                forall|j: int|
                    0 <= j < 2048 ==> #[trigger] t@[j] == crc64_after(
                        (j / 256 + 1) as nat,
                        (j % 256) as u64,
                    ),
            decreases len - i,
        {
            let w = crc ^ (data[i] as u64) ^ ((data[i + 1] as u64) << 8)
                ^ ((data[i + 2] as u64) << 16) ^ ((data[i + 3] as u64) << 24)
                ^ ((data[i + 4] as u64) << 32) ^ ((data[i + 5] as u64) << 40)
                ^ ((data[i + 6] as u64) << 48) ^ ((data[i + 7] as u64) << 56);
            let b0 = w & 0xFF;
            let b1 = (w >> 8) & 0xFF;
            let b2 = (w >> 16) & 0xFF;
            let b3 = (w >> 24) & 0xFF;
            let b4 = (w >> 32) & 0xFF;
            let b5 = (w >> 40) & 0xFF;
            let b6 = (w >> 48) & 0xFF;
            let b7 = w >> 56;
            proof {
                let d = data@.subrange(i as int, i + 8);
                lemma_crc64_eight(crc, d, w);
                lemma_crc64_pieces(first, data@.take(i as int), d);
                assert(data@.take(i as int) + d =~= data@.take(i + 8));
                assert(b0 <= 0xFF && b1 <= 0xFF && b2 <= 0xFF && b3 <= 0xFF && b4 <= 0xFF
                    && b5 <= 0xFF && b6 <= 0xFF && b7 <= 0xFF) by (bit_vector)
                    requires
                        b0 == w & 0xFF,
                        b1 == (w >> 8) & 0xFF,
                        b2 == (w >> 16) & 0xFF,
                        b3 == (w >> 24) & 0xFF,
                        b4 == (w >> 32) & 0xFF,
                        b5 == (w >> 40) & 0xFF,
                        b6 == (w >> 48) & 0xFF,
                        b7 == w >> 56,
                ;
            }
            crc = t[1792 + b0 as usize] ^ t[1536 + b1 as usize] ^ t[1280 + b2 as usize]
                ^ t[1024 + b3 as usize] ^ t[768 + b4 as usize] ^ t[512 + b5 as usize]
                ^ t[256 + b6 as usize] ^ t[b7 as usize];
            i = i + 8;
        }
    }
    while i < len
        invariant
            i <= len,
            len == data@.len(),
            crc == crc64_all(first, data@.take(i as int)),
        decreases len - i,
    {
        proof {
            assert(data@.take(i + 1).drop_last() =~= data@.take(i as int));
        }
        crc = crc64_byte(crc, data[i]);
        i = i + 1;
    }
    assert(data@.take(len as int) =~= data@);
    crc
}

/// The CRC-64 of some data.
pub open spec fn crc64_of(data: Seq<u8>) -> u64 {
    crc64_all(0xFFFF_FFFF_FFFF_FFFF, data) ^ 0xFFFF_FFFF_FFFF_FFFF
}

/// A CRC-64 (XZ) in the making.
#[derive(Clone, Copy)]
pub struct Crc64 {
    state: u64,
    data: Ghost<Seq<u8>>,
}

impl Crc64 {
    /// The data it was made of.
    pub closed spec fn data(&self) -> Seq<u8> {
        self.data@
    }

    pub closed spec fn wf(&self) -> bool {
        self.state == crc64_all(0xFFFF_FFFF_FFFF_FFFF, self.data@)
    }

    pub fn new() -> (c: Self)
        ensures
            c.wf(),
            c.data() == Seq::<u8>::empty(),
    {
        Crc64 { state: 0xFFFF_FFFF_FFFF_FFFF, data: Ghost(Seq::empty()) }
    }

    pub fn update(&mut self, data: &[u8])
        requires
            old(self).wf(),
        ensures
            final(self).wf(),
            final(self).data() == old(self).data() + data@,
    {
        proof {
            lemma_crc64_pieces(0xFFFF_FFFF_FFFF_FFFF, self.data@, data@);
        }
        self.state = crc64_by_eight(self.state, data);
        proof {
            self.data@ = self.data@ + data@;
        }
    }

    pub fn finalize(self) -> (r: u64)
        requires
            self.wf(),
        ensures
            r == crc64_of(self.data()),
    {
        self.state ^ 0xFFFF_FFFF_FFFF_FFFF
    }

    pub fn checksum(data: &[u8]) -> (r: u64)
        ensures
            r == crc64_of(data@),
    {
        let mut crc = Crc64::new();
        crc.update(data);
        assert(Seq::<u8>::empty() + data@ =~= data@);
        crc.finalize()
    }
}

/// The bits of a number in reverse order.
pub open spec fn mirrored32(x: u32) -> u32 {
    let x = ((x >> 1) & 0x5555_5555) | ((x & 0x5555_5555) << 1);
    let x = ((x >> 2) & 0x3333_3333) | ((x & 0x3333_3333) << 2);
    let x = ((x >> 4) & 0x0F0F_0F0F) | ((x & 0x0F0F_0F0F) << 4);
    let x = ((x >> 8) & 0x00FF_00FF) | ((x & 0x00FF_00FF) << 8);
    (x >> 16) | (x << 16)
}

/// What is left of a division by `x^32 + 0x04C1_1DB7`
/// over the field of two elements, with one more bit of the dividend taken in:
/// the highest power is the most significant bit.
pub open spec fn divided32(rest: u32, bit: u32) -> u32 {
    if (rest >> 31) != bit {
        (rest << 1) ^ 0x04C1_1DB7
    } else {
        rest << 1
    }
}

/// The same with the eight bits of a byte, the least significant first.
pub open spec fn divided32_byte(rest: u32, byte: u32) -> u32 {
    let r = divided32(rest, byte & 1);
    let r = divided32(r, (byte >> 1) & 1);
    let r = divided32(r, (byte >> 2) & 1);
    let r = divided32(r, (byte >> 3) & 1);
    let r = divided32(r, (byte >> 4) & 1);
    let r = divided32(r, (byte >> 5) & 1);
    let r = divided32(r, (byte >> 6) & 1);
    divided32(r, (byte >> 7) & 1)
}

/// The same with all the bytes of `data`.
pub open spec fn divided32_all(rest: u32, data: Seq<u8>) -> u32
    decreases data.len(),
{
    if data.len() == 0 {
        rest
    } else {
        divided32_byte(divided32_all(rest, data.drop_last()), data.last() as u32)
    }
}

proof fn lemma_mirrored32_bit(crc: u32, bit: u32)
    requires
        bit <= 1,
    ensures
        mirrored32(crc32_bit(crc ^ bit)) == divided32(mirrored32(crc), bit),
{
    assert(bit <= 1 ==> mirrored32(crc32_bit(crc ^ bit)) == divided32(mirrored32(crc), bit))
        by (bit_vector);
}

proof fn lemma_mirrored32_byte(crc: u32, byte: u8)
    ensures
        mirrored32(crc32_next(crc, byte)) == divided32_byte(mirrored32(crc), byte as u32),
{
    let b = byte as u32;
    let (b0, b1, b2, b3) = (b & 1, (b >> 1) & 1, (b >> 2) & 1, (b >> 3) & 1);
    let (b4, b5, b6, b7) = ((b >> 4) & 1, (b >> 5) & 1, (b >> 6) & 1, (b >> 7) & 1);
    let x0 = crc32_bit(crc ^ b0);
    let x1 = crc32_bit(x0 ^ b1);
    let x2 = crc32_bit(x1 ^ b2);
    let x3 = crc32_bit(x2 ^ b3);
    let x4 = crc32_bit(x3 ^ b4);
    let x5 = crc32_bit(x4 ^ b5);
    let x6 = crc32_bit(x5 ^ b6);
    let x7 = crc32_bit(x6 ^ b7);
    // What is left of the byte moves down bit by bit.
    let y0 = crc ^ b;
    let y1 = crc32_bit(y0);
    let y2 = crc32_bit(y1);
    let y3 = crc32_bit(y2);
    let y4 = crc32_bit(y3);
    let y5 = crc32_bit(y4);
    let y6 = crc32_bit(y5);
    let y7 = crc32_bit(y6);
    lemma_crc32_moves(crc, b);
    lemma_crc32_moves(x0, b >> 1);
    lemma_crc32_moves(x1, b >> 2);
    lemma_crc32_moves(x2, b >> 3);
    lemma_crc32_moves(x3, b >> 4);
    lemma_crc32_moves(x4, b >> 5);
    lemma_crc32_moves(x5, b >> 6);
    lemma_crc32_moves(x6, b >> 7);
    assert(((b >> 1) >> 1) == b >> 2 && ((b >> 2) >> 1) == b >> 3 && ((b >> 3) >> 1) == b >> 4 && (
    (b >> 4) >> 1) == b >> 5 && ((b >> 5) >> 1) == b >> 6 && ((b >> 6) >> 1) == b >> 7 && (b <= 0xFF
        ==> ((b >> 7) >> 1) == 0) && (x7 ^ 0) == x7 && b0 <= 1 && b1 <= 1 && b2 <= 1 && b3 <= 1 && b4
        <= 1 && b5 <= 1 && b6 <= 1 && b7 <= 1) by (bit_vector)
        requires
            b0 == b & 1,
            b1 == (b >> 1) & 1,
            b2 == (b >> 2) & 1,
            b3 == (b >> 3) & 1,
            b4 == (b >> 4) & 1,
            b5 == (b >> 5) & 1,
            b6 == (b >> 6) & 1,
            b7 == (b >> 7) & 1,
    ;
    lemma_mirrored32_bit(crc, b0);
    lemma_mirrored32_bit(x0, b1);
    lemma_mirrored32_bit(x1, b2);
    lemma_mirrored32_bit(x2, b3);
    lemma_mirrored32_bit(x3, b4);
    lemma_mirrored32_bit(x4, b5);
    lemma_mirrored32_bit(x5, b6);
    lemma_mirrored32_bit(x6, b7);
}

/// Bits that are to be taken in later move down like those of the register.
proof fn lemma_crc32_moves(crc: u32, b: u32)
    ensures
        crc32_bit(crc ^ b) == crc32_bit(crc ^ (b & 1)) ^ (b >> 1),
{
    assert(crc32_bit(crc ^ b) == crc32_bit(crc ^ (b & 1)) ^ (b >> 1)) by (bit_vector);
}

/// The register of a CRC-32 is what a division leaves, with its bits in reverse
/// order.
pub proof fn lemma_crc32_mirrors(crc: u32, data: Seq<u8>)
    ensures
        mirrored32(crc32_all(crc, data)) == divided32_all(mirrored32(crc), data),
    decreases data.len(),
{
    if data.len() > 0 {
        lemma_crc32_mirrors(crc, data.drop_last());
        lemma_mirrored32_byte(crc32_all(crc, data.drop_last()), data.last());
    }
}

/// A CRC-32 is a division: the data, its bits in the order in which they are
/// sent and its first 32 inverted, is divided by
/// `x^32 + 0x04C1_1DB7`, and
/// the bits of what is left are inverted, in reverse order.
pub proof fn lemma_crc32_divides(data: Seq<u8>)
    ensures
        crc32_of(data) == mirrored32(!divided32_all(0xFFFF_FFFF, data)),
{
    lemma_crc32_mirrors(0xFFFF_FFFF, data);
    let x = crc32_all(0xFFFF_FFFF, data);
    assert(mirrored32(!mirrored32(x)) == x ^ 0xFFFF_FFFF && mirrored32(0xFFFF_FFFF)
        == 0xFFFF_FFFF) by (bit_vector);
}

proof fn lemma_crc32_all_linear(x: u32, y: u32, a: Seq<u8>, b: Seq<u8>, c: Seq<u8>)
    requires
        a.len() == b.len() == c.len(),
        forall|i: int| 0 <= i < a.len() ==> #[trigger] c[i] == a[i] ^ b[i],
    ensures
        crc32_all(x ^ y, c) == crc32_all(x, a) ^ crc32_all(y, b),
    decreases a.len(),
{
    if a.len() > 0 {
        lemma_crc32_all_linear(x, y, a.drop_last(), b.drop_last(), c.drop_last());
        let p = crc32_all(x, a.drop_last());
        let q = crc32_all(y, b.drop_last());
        let (s, t, u) = (a.last(), b.last(), c.last());
        assert(c[c.len() - 1] == s ^ t);
        assert((p ^ q) ^ (u as u32) == (p ^ (s as u32)) ^ (q ^ (t as u32))) by (bit_vector)
            requires
                u == s ^ t,
        ;
        lemma_crc32_shift_linear(p ^ (s as u32), q ^ (t as u32));
    }
}

/// A CRC-32 is affine: where data is the sum of three others of its length, bit by
/// bit without carry, so is its checksum.
pub proof fn lemma_crc32_affine(a: Seq<u8>, b: Seq<u8>, c: Seq<u8>, d: Seq<u8>)
    requires
        a.len() == b.len() == c.len() == d.len(),
        forall|i: int| 0 <= i < d.len() ==> #[trigger] d[i] == a[i] ^ b[i] ^ c[i],
    ensures
        crc32_of(d) == crc32_of(a) ^ crc32_of(b) ^ crc32_of(c),
{
    let ones: u32 = 0xFFFF_FFFF;
    let e = Seq::new(a.len(), |i: int| a[i] ^ b[i]);
    lemma_crc32_all_linear(ones, ones, a, b, e);
    lemma_crc32_all_linear(ones ^ ones, ones, e, c, d);
    let (x, y, z) = (crc32_all(ones, a), crc32_all(ones, b), crc32_all(ones, c));
    assert((ones ^ ones) ^ ones == ones && (x ^ y ^ z) ^ 0xFFFF_FFFF == (x ^ 0xFFFF_FFFF) ^ (y ^ 0xFFFF_FFFF) ^ (z ^ 0xFFFF_FFFF))
        by (bit_vector)
        requires
            ones == 0xFFFF_FFFF,
    ;
}

/// The bits of a number in reverse order.
pub open spec fn mirrored64(x: u64) -> u64 {
    let x = ((x >> 1) & 0x5555_5555_5555_5555) | ((x & 0x5555_5555_5555_5555) << 1);
    let x = ((x >> 2) & 0x3333_3333_3333_3333) | ((x & 0x3333_3333_3333_3333) << 2);
    let x = ((x >> 4) & 0x0F0F_0F0F_0F0F_0F0F) | ((x & 0x0F0F_0F0F_0F0F_0F0F) << 4);
    let x = ((x >> 8) & 0x00FF_00FF_00FF_00FF) | ((x & 0x00FF_00FF_00FF_00FF) << 8);
    let x = ((x >> 16) & 0x0000_FFFF_0000_FFFF) | ((x & 0x0000_FFFF_0000_FFFF) << 16);
    (x >> 32) | (x << 32)
}

/// What is left of a division by `x^64 + 0x42F0_E1EB_A9EA_3693`
/// over the field of two elements, with one more bit of the dividend taken in:
/// the highest power is the most significant bit.
pub open spec fn divided64(rest: u64, bit: u64) -> u64 {
    if (rest >> 63) != bit {
        (rest << 1) ^ 0x42F0_E1EB_A9EA_3693
    } else {
        rest << 1
    }
}

/// The same with the eight bits of a byte, the least significant first.
pub open spec fn divided64_byte(rest: u64, byte: u64) -> u64 {
    let r = divided64(rest, byte & 1);
    let r = divided64(r, (byte >> 1) & 1);
    let r = divided64(r, (byte >> 2) & 1);
    let r = divided64(r, (byte >> 3) & 1);
    let r = divided64(r, (byte >> 4) & 1);
    let r = divided64(r, (byte >> 5) & 1);
    let r = divided64(r, (byte >> 6) & 1);
    divided64(r, (byte >> 7) & 1)
}

/// The same with all the bytes of `data`.
pub open spec fn divided64_all(rest: u64, data: Seq<u8>) -> u64
    decreases data.len(),
{
    if data.len() == 0 {
        rest
    } else {
        divided64_byte(divided64_all(rest, data.drop_last()), data.last() as u64)
    }
}

proof fn lemma_mirrored64_bit(crc: u64, bit: u64)
    requires
        bit <= 1,
    ensures
        mirrored64(crc64_bit(crc ^ bit)) == divided64(mirrored64(crc), bit),
{
    assert(bit <= 1 ==> mirrored64(crc64_bit(crc ^ bit)) == divided64(mirrored64(crc), bit))
        by (bit_vector);
}

proof fn lemma_mirrored64_byte(crc: u64, byte: u8)
    ensures
        mirrored64(crc64_next(crc, byte)) == divided64_byte(mirrored64(crc), byte as u64),
{
    let b = byte as u64;
    let (b0, b1, b2, b3) = (b & 1, (b >> 1) & 1, (b >> 2) & 1, (b >> 3) & 1);
    let (b4, b5, b6, b7) = ((b >> 4) & 1, (b >> 5) & 1, (b >> 6) & 1, (b >> 7) & 1);
    let x0 = crc64_bit(crc ^ b0);
    let x1 = crc64_bit(x0 ^ b1);
    let x2 = crc64_bit(x1 ^ b2);
    let x3 = crc64_bit(x2 ^ b3);
    let x4 = crc64_bit(x3 ^ b4);
    let x5 = crc64_bit(x4 ^ b5);
    let x6 = crc64_bit(x5 ^ b6);
    let x7 = crc64_bit(x6 ^ b7);
    // What is left of the byte moves down bit by bit.
    let y0 = crc ^ b;
    let y1 = crc64_bit(y0);
    let y2 = crc64_bit(y1);
    let y3 = crc64_bit(y2);
    let y4 = crc64_bit(y3);
    let y5 = crc64_bit(y4);
    let y6 = crc64_bit(y5);
    let y7 = crc64_bit(y6);
    lemma_crc64_moves(crc, b);
    lemma_crc64_moves(x0, b >> 1);
    lemma_crc64_moves(x1, b >> 2);
    lemma_crc64_moves(x2, b >> 3);
    lemma_crc64_moves(x3, b >> 4);
    lemma_crc64_moves(x4, b >> 5);
    lemma_crc64_moves(x5, b >> 6);
    lemma_crc64_moves(x6, b >> 7);
    assert(((b >> 1) >> 1) == b >> 2 && ((b >> 2) >> 1) == b >> 3 && ((b >> 3) >> 1) == b >> 4 && (
    (b >> 4) >> 1) == b >> 5 && ((b >> 5) >> 1) == b >> 6 && ((b >> 6) >> 1) == b >> 7 && (b <= 0xFF
        ==> ((b >> 7) >> 1) == 0) && (x7 ^ 0) == x7 && b0 <= 1 && b1 <= 1 && b2 <= 1 && b3 <= 1 && b4
        <= 1 && b5 <= 1 && b6 <= 1 && b7 <= 1) by (bit_vector)
        requires
            b0 == b & 1,
            b1 == (b >> 1) & 1,
            b2 == (b >> 2) & 1,
            b3 == (b >> 3) & 1,
            b4 == (b >> 4) & 1,
            b5 == (b >> 5) & 1,
            b6 == (b >> 6) & 1,
            b7 == (b >> 7) & 1,
    ;
    lemma_mirrored64_bit(crc, b0);
    lemma_mirrored64_bit(x0, b1);
    lemma_mirrored64_bit(x1, b2);
    lemma_mirrored64_bit(x2, b3);
    lemma_mirrored64_bit(x3, b4);
    lemma_mirrored64_bit(x4, b5);
    lemma_mirrored64_bit(x5, b6);
    lemma_mirrored64_bit(x6, b7);
}

/// Bits that are to be taken in later move down like those of the register.
proof fn lemma_crc64_moves(crc: u64, b: u64)
    ensures
        crc64_bit(crc ^ b) == crc64_bit(crc ^ (b & 1)) ^ (b >> 1),
{
    assert(crc64_bit(crc ^ b) == crc64_bit(crc ^ (b & 1)) ^ (b >> 1)) by (bit_vector);
}

/// The register of a CRC-64 is what a division leaves, with its bits in reverse
/// order.
pub proof fn lemma_crc64_mirrors(crc: u64, data: Seq<u8>)
    ensures
        mirrored64(crc64_all(crc, data)) == divided64_all(mirrored64(crc), data),
    decreases data.len(),
{
    if data.len() > 0 {
        lemma_crc64_mirrors(crc, data.drop_last());
        lemma_mirrored64_byte(crc64_all(crc, data.drop_last()), data.last());
    }
}

/// A CRC-64 is a division: the data, its bits in the order in which they are
/// sent and its first 64 inverted, is divided by
/// `x^64 + 0x42F0_E1EB_A9EA_3693`, and
/// the bits of what is left are inverted, in reverse order.
pub proof fn lemma_crc64_divides(data: Seq<u8>)
    ensures
        crc64_of(data) == mirrored64(!divided64_all(0xFFFF_FFFF_FFFF_FFFF, data)),
{
    lemma_crc64_mirrors(0xFFFF_FFFF_FFFF_FFFF, data);
    let x = crc64_all(0xFFFF_FFFF_FFFF_FFFF, data);
    assert(mirrored64(!mirrored64(x)) == x ^ 0xFFFF_FFFF_FFFF_FFFF && mirrored64(0xFFFF_FFFF_FFFF_FFFF)
        == 0xFFFF_FFFF_FFFF_FFFF) by (bit_vector);
}

proof fn lemma_crc64_all_linear(x: u64, y: u64, a: Seq<u8>, b: Seq<u8>, c: Seq<u8>)
    requires
        a.len() == b.len() == c.len(),
        forall|i: int| 0 <= i < a.len() ==> #[trigger] c[i] == a[i] ^ b[i],
    ensures
        crc64_all(x ^ y, c) == crc64_all(x, a) ^ crc64_all(y, b),
    decreases a.len(),
{
    if a.len() > 0 {
        lemma_crc64_all_linear(x, y, a.drop_last(), b.drop_last(), c.drop_last());
        let p = crc64_all(x, a.drop_last());
        let q = crc64_all(y, b.drop_last());
        let (s, t, u) = (a.last(), b.last(), c.last());
        assert(c[c.len() - 1] == s ^ t);
        assert((p ^ q) ^ (u as u64) == (p ^ (s as u64)) ^ (q ^ (t as u64))) by (bit_vector)
            requires
                u == s ^ t,
        ;
        lemma_crc64_shift_linear(p ^ (s as u64), q ^ (t as u64));
    }
}

/// A CRC-64 is affine: where data is the sum of three others of its length, bit by
/// bit without carry, so is its checksum.
pub proof fn lemma_crc64_affine(a: Seq<u8>, b: Seq<u8>, c: Seq<u8>, d: Seq<u8>)
    requires
        a.len() == b.len() == c.len() == d.len(),
        forall|i: int| 0 <= i < d.len() ==> #[trigger] d[i] == a[i] ^ b[i] ^ c[i],
    ensures
        crc64_of(d) == crc64_of(a) ^ crc64_of(b) ^ crc64_of(c),
{
    let ones: u64 = 0xFFFF_FFFF_FFFF_FFFF;
    let e = Seq::new(a.len(), |i: int| a[i] ^ b[i]);
    lemma_crc64_all_linear(ones, ones, a, b, e);
    lemma_crc64_all_linear(ones ^ ones, ones, e, c, d);
    let (x, y, z) = (crc64_all(ones, a), crc64_all(ones, b), crc64_all(ones, c));
    assert((ones ^ ones) ^ ones == ones && (x ^ y ^ z) ^ 0xFFFF_FFFF_FFFF_FFFF == (x ^ 0xFFFF_FFFF_FFFF_FFFF) ^ (y ^ 0xFFFF_FFFF_FFFF_FFFF) ^ (z ^ 0xFFFF_FFFF_FFFF_FFFF))
        by (bit_vector)
        requires
            ones == 0xFFFF_FFFF_FFFF_FFFF,
    ;
}

} // verus!
