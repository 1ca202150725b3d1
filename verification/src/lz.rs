//! The dictionary: a cyclic buffer of the last bytes decoded.

use vstd::prelude::*;

use crate::error::Error;
use crate::locality::{lemma_copied, lemma_copied_parts};
use crate::symbol::{byte_back, copied, reach};

verus! {

/// A dictionary as mathematics.
#[verifier::ext_equal]
pub struct Window {
    /// How many bytes the dictionary holds.
    pub size: nat,
    /// Every byte put in so far, also those the dictionary has forgotten.
    pub hist: Seq<u8>,
    /// How many of them have been handed out.
    pub delivered: nat,
    /// How many more fit before what is waiting has to be handed out.
    pub space: nat,
    /// How many more may be put in before the limit set last.
    pub room: nat,
    /// How many bytes of the last copy are still to be made.
    pub pending: nat,
    /// The distance they are to be copied from.
    pub dist: nat,
    /// The memory for the dictionary is there.
    pub allocated: bool,
}

impl Window {
    /// The data with the copy that is under way made whole.
    pub open spec fn ideal(self) -> Seq<u8> {
        copied(self.hist, self.dist as int, self.pending)
    }
}

/// The longest copy there is.
pub const MATCH_LEN_MAX: usize = 273;

/// The second dictionary is the first with some more bytes put in.
pub open spec fn grown(a: Window, b: Window) -> bool {
    &&& b.size == a.size
    &&& b.delivered == a.delivered
    &&& b.allocated == a.allocated
    &&& a.hist.is_prefix_of(b.hist)
    &&& b.hist.len() - a.hist.len() == a.space - b.space
    &&& b.hist.len() - a.hist.len() == a.room - b.room
}

/// A dictionary.
pub struct LzDecoder {
    buf: Vec<u8>,
    size: usize,
    start: usize,
    pos: usize,
    full: usize,
    limit: usize,
    pending_len: usize,
    pending_dist: usize,
    hist: Ghost<Seq<u8>>,
}

impl View for LzDecoder {
    type V = Window;

    closed spec fn view(&self) -> Window {
        Window {
            size: self.size as nat,
            hist: self.hist@,
            delivered: (self.hist@.len() - (self.pos - self.start)) as nat,
            space: (self.size - self.pos) as nat,
            room: (self.limit - self.pos) as nat,
            pending: self.pending_len as nat,
            dist: self.pending_dist as nat,
            allocated: self.buf@.len() == self.size,
        }
    }
}

impl LzDecoder {
    /// How many bytes came before the one at the start of the buffer.
    spec fn base(&self) -> int {
        self.hist@.len() - self.pos
    }

    pub closed spec fn wf(&self) -> bool {
        &&& self.size > 0
        &&& self.size % 16 == 0
        &&& self.start <= self.pos <= self.limit <= self.size
        &&& self.base() >= 0
        &&& self.base() % self.size as int == 0
        &&& self.full == reach(self.hist@, self.size as nat)
        &&& self.pending_len > 0 ==> self.pending_dist < self.full
        &&& self.pending_len <= MATCH_LEN_MAX
        &&& self.buf@.len() == self.size || self.buf@.len() == self.pos && self.base() == 0
        &&& forall|i: int| 0 <= i < self.pos ==> #[trigger] self.buf@[i] == self.hist@[self.base() + i]
        &&& self.base() > 0 ==> forall|i: int|
            self.pos <= i < self.size ==> #[trigger] self.buf@[i] == self.hist@[self.base()
                - self.size + i]
    }

    /// What holds of every dictionary.
    pub proof fn lemma_wf(&self)
        requires
            self.wf(),
        ensures
            self@.size > 0,
            self@.size % 16 == 0,
            self@.size <= usize::MAX,
            self@.delivered <= self@.hist.len(),
            self@.room <= self@.space <= self@.size,
            self@.hist.len() - self@.delivered <= self@.size - self@.space,
            self@.pending > 0 ==> self@.dist < reach(self@.hist, self@.size),
            self@.pending <= MATCH_LEN_MAX,
            self@.ideal().len() == self@.hist.len() + self@.pending,
            self@.hist.is_prefix_of(self@.ideal()),
            self@.pending == 0 ==> self@.ideal() == self@.hist,
    {
        if self@.pending > 0 {
            lemma_copied(self@.hist, self@.dist as int, self@.pending);
        }
    }

    /// A dictionary of `dict_size` bytes, with the last bytes of
    /// `preset_dict` in it.
    pub fn new(dict_size: usize, preset_dict: Option<&[u8]>) -> (lz: Self)
        requires
            dict_size > 0,
            dict_size % 16 == 0,
        ensures
            lz.wf(),
            lz@.size == dict_size,
            lz@.hist == preset_tail(preset_bytes(preset_dict), dict_size as nat),
            preset_dict is None ==> lz@.hist.len() == 0,
            preset_dict matches Some(preset) ==> held_back(lz@.hist, preset@, dict_size as nat),
            lz@.delivered == lz@.hist.len(),
            lz@.space == dict_size - lz@.hist.len(),
            lz@.room == 0,
            lz@.pending == 0,
    {
        let mut buf: Vec<u8> = Vec::new();
        if let Some(preset) = preset_dict {
            let n = if preset.len() < dict_size { preset.len() } else { dict_size };
            buf.extend_from_slice(&preset[preset.len() - n..preset.len()]);
        }
        let pos = buf.len();
        let ghost hist = buf@;
        assert(hist =~= preset_tail(preset_bytes(preset_dict), dict_size as nat));
        proof {
            lemma_preset_held(preset_bytes(preset_dict), dict_size as nat);
        }
        LzDecoder {
            buf,
            size: dict_size,
            start: pos,
            pos,
            full: pos,
            limit: pos,
            pending_len: 0,
            pending_dist: 0,
            hist: Ghost(hist),
        }
    }

    /// Makes sure that the memory for the dictionary is there.
    pub fn ensure_capacity(&mut self) -> (r: Result<(), Error>)
        requires
            old(self).wf(),
        ensures
            r is Ok,
            final(self).wf(),
            final(self)@ == (Window { allocated: true, ..old(self)@ }),
    {
        if self.buf.len() < self.size {
            let ghost before = self.buf@;
            self.buf.resize(self.size, 0);
            assert(forall|i: int|
                0 <= i < before.len() ==> self.buf@.subrange(0, before.len() as int)[i]
                    == #[trigger] self.buf@[i]);
        }
        Ok(())
    }

    /// Allows `out_max` more bytes, or as many as fit.
    pub fn set_limit(&mut self, out_max: usize)
        requires
            old(self).wf(),
        ensures
            final(self).wf(),
            final(self)@ == (Window {
                room: if out_max < old(self)@.space { out_max as nat } else { old(self)@.space },
                ..old(self)@
            }),
    {
        self.limit = if out_max < self.size - self.pos { self.pos + out_max } else { self.size };
    }

    pub fn has_space(&self) -> (r: bool)
        requires
            self.wf(),
        ensures
            r == (self@.room > 0),
    {
        self.pos < self.limit
    }

    /// Whether a copy is under way that the limit has cut short.
    pub fn has_pending(&self) -> (r: bool)
        ensures
            r == (self@.pending > 0),
    {
        self.pending_len > 0
    }

    /// Whether bytes wait to be handed out.
    pub fn has_output(&self) -> (r: bool)
        requires
            self.wf(),
        ensures
            r == (self@.delivered < self@.hist.len()),
    {
        self.start < self.pos
    }

    /// How many bytes fit before what is waiting has to be handed out.
    pub fn available_space(&self) -> (n: usize)
        requires
            self.wf(),
        ensures
            n == self@.space,
    {
        self.size - self.pos
    }

    /// Where in the buffer the next byte goes.
    pub fn get_pos(&self) -> (p: usize)
        requires
            self.wf(),
        ensures
            p == self@.size - self@.space,
            p % 16 == self@.hist.len() % 16,
    {
        proof {
            let base = self.base();
            let size = self.size as int;
            assert(base % 16 == 0) by (nonlinear_arith)
                requires
                    base % size == 0,
                    size % 16 == 0,
                    size > 0,
                    base >= 0,
            {
                let q = base / size;
                let r = size / 16;
                assert(base == q * size);
                assert(size == 16 * r);
                assert(base == 16 * (q * r));
            }
        }
        self.pos
    }

    /// How far back the dictionary reaches.
    pub fn full(&self) -> (n: usize)
        requires
            self.wf(),
        ensures
            n == reach(self@.hist, self@.size),
    {
        self.full
    }

    /// The byte `dist` before the last.
    pub fn get_byte(&self, dist: usize) -> (b: u8)
        requires
            self.wf(),
        ensures
            b == byte_back(self@.hist, self@.size, dist as int),
    {
        if dist >= self.full {
            return 0;
        }
        if dist < self.pos {
            self.buf[self.pos - 1 - dist]
        } else {
            self.buf[self.size - 1 - (dist - self.pos)]
        }
    }

    /// Puts a byte in.
    pub fn put_byte(&mut self, b: u8)
        requires
            old(self).wf(),
            old(self)@.allocated,
            old(self)@.room > 0,
            old(self)@.pending == 0,
        ensures
            final(self).wf(),
            final(self)@ == (Window {
                hist: old(self)@.hist.push(b),
                space: (old(self)@.space - 1) as nat,
                room: (old(self)@.room - 1) as nat,
                ..old(self)@
            }),
    {
        proof {
            let base = self.base();
            let size = self.size as int;
            assert(base > 0 ==> base >= size) by (nonlinear_arith)
                requires
                    base % size == 0,
                    base >= 0,
                    size > 0,
            ;
        }
        self.buf[self.pos] = b;
        self.pos = self.pos + 1;
        if self.full < self.pos {
            self.full = self.pos;
        }
        proof {
            self.hist@ = self.hist@.push(b);
        }
    }

    /// Puts in `n` bytes, each a copy of the one `dist` before the last.
    fn copy(&mut self, dist: usize, n: usize)
        requires
            old(self).wf(),
            old(self)@.allocated,
            old(self)@.pending == 0,
            dist < reach(old(self)@.hist, old(self)@.size),
            n <= old(self)@.room,
        ensures
            final(self).wf(),
            final(self)@ == (Window {
                hist: copied(old(self)@.hist, dist as int, n as nat),
                space: (old(self)@.space - n) as nat,
                room: (old(self)@.room - n) as nat,
                ..old(self)@
            }),
    {
        let mut i: usize = 0;
        while i < n
            invariant
                self.wf(),
                i <= n,
                n <= old(self)@.room,
                old(self)@.allocated,
                old(self)@.pending == 0,
                old(self)@.room <= old(self)@.space,
                dist < reach(old(self)@.hist, old(self)@.size),
                self@ == (Window {
                    hist: copied(old(self)@.hist, dist as int, i as nat),
                    space: (old(self)@.space - i) as nat,
                    room: (old(self)@.room - i) as nat,
                    ..old(self)@
                }),
            decreases n - i,
        {
            proof {
                lemma_copied(old(self)@.hist, dist as int, i as nat);
            }
            let b = self.get_byte(dist);
            self.put_byte(b);
            i = i + 1;
        }
    }

    /// Copies `len` bytes from `dist` before the last, or as many as the limit
    /// allows, with the rest left pending.
    pub fn repeat(&mut self, dist: usize, len: usize) -> (r: Result<(), Error>)
        requires
            old(self).wf(),
            old(self)@.allocated,
            old(self)@.pending == 0,
            len <= MATCH_LEN_MAX,
        ensures
            final(self).wf(),
            r == (if dist < reach(old(self)@.hist, old(self)@.size) {
                Ok::<(), Error>(())
            } else {
                Err(Error::DistOverflow)
            }),
            r is Err ==> final(self)@ == old(self)@,
            r is Ok ==> ({
                let n: nat = if len < old(self)@.room { len as nat } else { old(self)@.room };
                &&& final(self)@ == (Window {
                    hist: copied(old(self)@.hist, dist as int, n),
                    space: (old(self)@.space - n) as nat,
                    room: (old(self)@.room - n) as nat,
                    pending: (len - n) as nat,
                    dist: dist as nat,
                    ..old(self)@
                })
                &&& final(self)@.ideal() == copied(old(self)@.hist, dist as int, len as nat)
            }),
    {
        if dist >= self.full {
            return Err(Error::DistOverflow);
        }
        let room = self.limit - self.pos;
        let n = if len < room { len } else { room };
        self.copy(dist, n);
        self.pending_len = len - n;
        self.pending_dist = dist;
        proof {
            lemma_copied(old(self)@.hist, dist as int, n as nat);
            lemma_copied_parts(old(self)@.hist, dist as int, n as nat, (len - n) as nat);
        }
        Ok(())
    }

    /// Goes on with the copy that is under way.
    pub fn repeat_pending(&mut self)
        requires
            old(self).wf(),
            old(self)@.allocated,
        ensures
            final(self).wf(),
            final(self)@.ideal() == old(self)@.ideal(),
            ({
                let n: nat = if old(self)@.pending < old(self)@.room {
                    old(self)@.pending
                } else {
                    old(self)@.room
                };
                final(self)@ == (Window {
                    hist: copied(old(self)@.hist, old(self)@.dist as int, n),
                    space: (old(self)@.space - n) as nat,
                    room: (old(self)@.room - n) as nat,
                    pending: (old(self)@.pending - n) as nat,
                    ..old(self)@
                })
            }),
    {
        if self.pending_len > 0 {
            let len = self.pending_len;
            self.pending_len = 0;
            let r = self.repeat(self.pending_dist, len);
        }
    }

    /// Hands out what is waiting, as far as it fits into `out` from `off` on.
    pub fn flush_at(&mut self, out: &mut [u8], off: usize) -> (n: usize)
        requires
            old(self).wf(),
            off <= old(out)@.len(),
        ensures
            final(self).wf(),
            ({
                let w = old(self)@;
                let d = (w.delivered + n) as nat;
                let around = d == w.hist.len() && w.space == 0;
                &&& n == (if w.hist.len() - w.delivered < old(out)@.len() - off {
                    w.hist.len() - w.delivered
                } else {
                    old(out)@.len() - off
                })
                &&& final(out)@ == old(out)@.take(off as int) + w.hist.subrange(
                    w.delivered as int,
                    d as int,
                ) + old(out)@.skip(off + n)
                &&& final(self)@ == (Window {
                    delivered: d,
                    space: if around { w.size } else { w.space },
                    room: if around { w.size } else { w.room },
                    ..w
                })
            }),
    {
        let waiting = self.pos - self.start;
        let free = out.len() - off;
        let n = if waiting < free { waiting } else { free };
        let ghost h = self.hist@;
        let ghost d = h.len() - waiting;
        let mut i: usize = 0;
        while i < n
            invariant
                *self == *old(self),
                self.wf(),
                i <= n,
                n <= waiting == self.pos - self.start,
                n <= old(out)@.len() - off,
                off <= old(out)@.len(),
                out@.len() == old(out)@.len(),
                h == self.hist@,
                d == h.len() - waiting,
                out@ =~= old(out)@.take(off as int) + h.subrange(d, d + i) + old(out)@.skip(
                    off + i,
                ),
            decreases n - i,
        {
            let b = self.buf[self.start + i];
            assert(b == h[d + i]);
            assert(off + i < out.len());
            out[off + i] = b;
            i = i + 1;
        }
        self.start = self.start + n;
        if self.start == self.size {
            self.start = 0;
            self.pos = 0;
            proof {
                let size = self.size as int;
                let b = h.len() - size;
                assert((b + size) % size == 0) by (nonlinear_arith)
                    requires
                        b % size == 0,
                        size > 0,
                        b >= 0,
                ;
            }
        }
        n
    }

    /// Hands out what is waiting, `limit` bytes at most, behind what `buf`
    /// holds.
    pub fn flush_to_buf(&mut self, buf: &mut Vec<u8>, limit: usize) -> (n: usize)
        requires
            old(self).wf(),
        ensures
            final(self).wf(),
            ({
                let w = old(self)@;
                let d = (w.delivered + n) as nat;
                let around = d == w.hist.len() && w.space == 0;
                &&& n == (if w.hist.len() - w.delivered < limit {
                    w.hist.len() - w.delivered
                } else {
                    limit as int
                })
                &&& final(buf)@ == old(buf)@ + w.hist.subrange(w.delivered as int, d as int)
                &&& final(self)@ == (Window {
                    delivered: d,
                    space: if around { w.size } else { w.space },
                    room: if around { w.size } else { w.room },
                    ..w
                })
            }),
    {
        let waiting = self.pos - self.start;
        let cap = if waiting < limit { waiting } else { limit };
        let mut tmp: Vec<u8> = vec![0u8; cap];
        let n = self.flush_partial(tmp.as_mut_slice());
        assert(tmp@ =~= old(self)@.hist.subrange(
            old(self)@.delivered as int,
            old(self)@.delivered + n,
        ));
        buf.extend_from_slice(tmp.as_slice());
        assert(buf@ =~= old(buf)@ + tmp@);
        n
    }

    /// Hands out what is waiting, as far as it fits into `out`.
    pub fn flush_partial(&mut self, out: &mut [u8]) -> (n: usize)
        requires
            old(self).wf(),
        ensures
            final(self).wf(),
            ({
                let w = old(self)@;
                let d = (w.delivered + n) as nat;
                let around = d == w.hist.len() && w.space == 0;
                &&& n == (if w.hist.len() - w.delivered < old(out)@.len() {
                    w.hist.len() - w.delivered
                } else {
                    old(out)@.len() as int
                })
                &&& final(out)@ == w.hist.subrange(w.delivered as int, d as int)
                    + old(out)@.skip(n as int)
                &&& final(self)@ == (Window {
                    delivered: d,
                    space: if around { w.size } else { w.space },
                    room: if around { w.size } else { w.room },
                    ..w
                })
            }),
    {
        let ghost before = out@;
        let n = self.flush_at(out, 0);
        assert(before.take(0) =~= Seq::<u8>::empty());
        assert(out@ =~= old(self)@.hist.subrange(
            old(self)@.delivered as int,
            old(self)@.delivered + n,
        ) + before.skip(n as int));
        n
    }
}

/// The bytes of a preset dictionary, if there is one.
pub open spec fn preset_bytes(preset: Option<&[u8]>) -> Seq<u8> {
    match preset {
        Some(dict) => dict@,
        None => Seq::empty(),
    }
}

/// `hist` is as much of `preset` as `size` bytes can have, and ends with the same
/// bytes.
pub open spec fn held_back(hist: Seq<u8>, preset: Seq<u8>, size: nat) -> bool {
    &&& hist.len() == size || hist.len() == preset.len()
    &&& hist.len() <= size && hist.len() <= preset.len()
    &&& forall|i: int|
        0 <= i < hist.len() ==> #[trigger] hist[hist.len() - 1 - i] == preset[preset.len() - 1 - i]
}

/// There is one such.
pub proof fn lemma_one_held_back(a: Seq<u8>, b: Seq<u8>, preset: Seq<u8>, size: nat)
    requires
        held_back(a, preset, size),
        held_back(b, preset, size),
    ensures
        a == b,
{
    assert forall|i: int| 0 <= i < a.len() implies a[i] == b[i] by {
        let j = a.len() - 1 - i;
        assert(a[a.len() - 1 - j] == preset[preset.len() - 1 - j]);
        assert(b[b.len() - 1 - j] == preset[preset.len() - 1 - j]);
    }
    assert(a =~= b);
}

/// What a dictionary keeps of a preset one is the end of it, as much as it can
/// have, and all of it where that fits.
pub proof fn lemma_preset_held(preset: Seq<u8>, size: nat)
    ensures
        held_back(preset_tail(preset, size), preset, size),
        preset.len() <= size ==> preset_tail(preset, size) == preset,
        forall|i: int|
            0 <= i < preset.len() && i < size ==> #[trigger] byte_back(
                preset_tail(preset, size),
                size,
                i,
            ) == preset[preset.len() - 1 - i],
{
    let t = preset_tail(preset, size);
    if preset.len() <= size {
        assert(t =~= preset);
    }
}

/// The part of a preset dictionary that a dictionary of `size` bytes keeps.
pub open spec fn preset_tail(preset: Seq<u8>, size: nat) -> Seq<u8> {
    if preset.len() < size {
        preset
    } else {
        preset.skip(preset.len() - size)
    }
}

} // verus!
