use vstd::prelude::*;

verus! {

pub const PRIME32_1: u32 = 0x9E3779B1;

pub const PRIME32_2: u32 = 0x85EBCA77;

pub const PRIME32_3: u32 = 0xC2B2AE3D;

pub const PRIME32_4: u32 = 0x27D4EB2F;

pub const PRIME32_5: u32 = 0x165667B1;

/// One 32-bit lane of a stripe.
pub type Lane = u32;

/// The four lanes of a stripe.
pub type Lanes = [Lane; 4];

/// The bytes of a stripe.
pub type Bytes = [u8; 16];

/// Bytes in one stripe.
pub const BYTES_IN_LANE: usize = 16;

/// The four accumulator lanes, as a value.
pub type Acc4 = (u32, u32, u32, u32);

#[verifier::opaque]
pub open spec fn rotl_spec(x: u32, n: u32) -> u32 {
    (x << n) | (x >> (32 - n) as u32)
}

/// `x` rotated left by `n` bits.
fn rotl(x: u32, n: u32) -> (r: u32)
    requires
        0 < n < 32,
    ensures
        r == rotl_spec(x, n),
{
    reveal(rotl_spec);
    (x << n) | (x >> (32 - n))
}

/// The little-endian word of the four bytes of `b` from `i`.
pub open spec fn le32(b: Seq<u8>, i: int) -> u32 {
    (b[i] as int + b[i + 1] as int * 0x100 + b[i + 2] as int * 0x1_0000 + b[i + 3] as int
        * 0x100_0000) as u32
}

fn read_le32(b: &[u8], i: usize) -> (w: u32)
    requires
        i + 4 <= b@.len(),
    ensures
        w == le32(b@, i as int),
{
    b[i] as u32 + b[i + 1] as u32 * 0x100 + b[i + 2] as u32 * 0x1_0000 + b[i + 3] as u32
        * 0x100_0000
}

/// One lane of the accumulator takes in one lane of input.
#[verifier::opaque]
pub open spec fn round_spec(acc: u32, lane: u32) -> u32 {
    rotl_spec(acc.wrapping_add(lane.wrapping_mul(PRIME32_2)), 13).wrapping_mul(PRIME32_1)
}

pub open spec fn acc_init(seed: u32) -> Acc4 {
    (
        seed.wrapping_add(PRIME32_1).wrapping_add(PRIME32_2),
        seed.wrapping_add(PRIME32_2),
        seed,
        seed.wrapping_sub(PRIME32_1),
    )
}

/// The accumulator after taking in the stripe at the front of `b`.
pub open spec fn acc_write(a: Acc4, b: Seq<u8>) -> Acc4 {
    (
        round_spec(a.0, le32(b, 0)),
        round_spec(a.1, le32(b, 4)),
        round_spec(a.2, le32(b, 8)),
        round_spec(a.3, le32(b, 12)),
    )
}

/// The accumulator after taking in every whole stripe of `b`.
#[verifier::opaque]
pub open spec fn acc_stripes(a: Acc4, b: Seq<u8>) -> Acc4
    decreases b.len(),
{
    if b.len() < 16 {
        a
    } else {
        acc_stripes(acc_write(a, b), b.skip(16))
    }
}

/// What is left of `b` after its whole stripes.
#[verifier::opaque]
pub open spec fn tail_of(b: Seq<u8>) -> Seq<u8>
    decreases b.len(),
{
    if b.len() < 16 {
        b
    } else {
        tail_of(b.skip(16))
    }
}

pub open spec fn acc_finish(a: Acc4) -> u32 {
    rotl_spec(a.0, 1).wrapping_add(rotl_spec(a.1, 7)).wrapping_add(rotl_spec(a.2, 12)).wrapping_add(
        rotl_spec(a.3, 18),
    )
}

/// Mixes in the trailing bytes of `b`, one at a time.
pub open spec fn tail_bytes(acc: u32, b: Seq<u8>) -> u32
    decreases b.len(),
{
    if b.len() == 0 {
        acc
    } else {
        tail_bytes(
            rotl_spec(acc.wrapping_add((b[0] as u32).wrapping_mul(PRIME32_5)), 11).wrapping_mul(
                PRIME32_1,
            ),
            b.skip(1),
        )
    }
}

/// Mixes in the trailing words of `b`, then its trailing bytes.
pub open spec fn tail_words(acc: u32, b: Seq<u8>) -> u32
    decreases b.len(),
{
    if b.len() < 4 {
        tail_bytes(acc, b)
    } else {
        tail_words(
            rotl_spec(acc.wrapping_add(le32(b, 0).wrapping_mul(PRIME32_3)), 17).wrapping_mul(
                PRIME32_4,
            ),
            b.skip(4),
        )
    }
}

pub open spec fn avalanche(acc: u32) -> u32 {
    let a1 = acc ^ (acc >> 15u32);
    let a2 = a1.wrapping_mul(PRIME32_2);
    let a3 = a2 ^ (a2 >> 13u32);
    let a4 = a3.wrapping_mul(PRIME32_3);
    a4 ^ (a4 >> 16u32)
}

/// The hash of `len` bytes in all, of which the whole stripes left the
/// accumulator `a` and `rest` is what followed them.
pub open spec fn finish_spec(seed: u32, len: u64, a: Acc4, rest: Seq<u8>) -> u32 {
    let start = if len < 16 {
        seed.wrapping_add(PRIME32_5)
    } else {
        acc_finish(a)
    };
    avalanche(tail_words(start.wrapping_add(len as u32), rest))
}

/// The 32-bit xxHash of `data` with `seed`.
pub open spec fn xxh32(seed: u32, data: Seq<u8>) -> u32 {
    finish_spec(seed, data.len() as u64, acc_stripes(acc_init(seed), data), tail_of(data))
}

/// Taking in `w` then `d` leaves the accumulator and the tail that taking
/// in the tail of `w` then `d` leaves, from where `w`'s stripes left it.
pub proof fn lemma_stripes_concat(a: Acc4, w: Seq<u8>, d: Seq<u8>)
    ensures
        acc_stripes(a, w + d) == acc_stripes(acc_stripes(a, w), tail_of(w) + d),
        tail_of(w + d) == tail_of(tail_of(w) + d),
    decreases w.len(),
{
    reveal(acc_stripes);
    reveal(tail_of);
    if w.len() >= 16 {
        let wd = w + d;
        assert(wd.skip(16) =~= w.skip(16) + d);
        assert(wd.take(16) =~= w.take(16));
        lemma_front_stripe(a, w, wd);
        lemma_stripes_concat(acc_write(a, w), w.skip(16), d);
    }
}

/// One step of taking in stripes.
proof fn lemma_stripe_step(a: Acc4, d: Seq<u8>)
    requires
        d.len() >= 16,
    ensures
        acc_stripes(a, d) == acc_stripes(acc_write(a, d), d.skip(16)),
        tail_of(d) == tail_of(d.skip(16)),
{
    reveal(acc_stripes);
    reveal(tail_of);
}

/// Fewer bytes than a stripe leave the accumulator as it was, as the tail.
proof fn lemma_stripes_short(a: Acc4, d: Seq<u8>)
    requires
        d.len() < 16,
    ensures
        acc_stripes(a, d) == a,
        tail_of(d) == d,
{
    reveal(acc_stripes);
    reveal(tail_of);
}

/// The stripe at the front of a byte string depends on its first 16 bytes
/// only.
proof fn lemma_front_stripe(a: Acc4, b: Seq<u8>, c: Seq<u8>)
    requires
        b.len() >= 16,
        c.len() >= 16,
        b.take(16) == c.take(16),
    ensures
        acc_write(a, b) == acc_write(a, c),
{
    assert forall|i: int| 0 <= i < 16 implies b[i] == c[i] by {
        assert(b[i] == b.take(16)[i]);
        assert(c[i] == c.take(16)[i]);
    }
}

/// The bytes of one stripe, read as four little-endian lanes.
#[derive(Clone, Copy, PartialEq, Eq, Debug)]
pub struct BufferedData(pub Bytes);

/// The list form of four lanes, as `{:?}` writes an array.
pub uninterp spec fn debug_list_of(lanes: Seq<u32>) -> Seq<char>;

/// Relies on std's `Debug` for `[u32; 4]`: the list text of the lanes.
#[verifier::external_body]
fn debug_lanes(lanes: &Lanes) -> (s: String)
    ensures
        s@ == debug_list_of(lanes@),
{
    format!("{:?}", lanes)
}

pub open spec fn lanes_spec(b: Seq<u8>) -> Seq<u32> {
    seq![le32(b, 0), le32(b, 4), le32(b, 8), le32(b, 12)]
}

impl BufferedData {
    pub fn new() -> (d: BufferedData)
        ensures
            forall|i: int| 0 <= i < 16 ==> d.0@[i] == 0,
    {
        BufferedData([0u8; 16])
    }

    /// The data whose lanes are `lanes`.
    pub fn from_lanes(lanes: Lanes) -> (d: BufferedData)
        ensures
            d.lanes_view() == lanes@,
    {
        let mut bytes = [0u8; 16];
        let mut j: usize = 0;
        while j < 4
            invariant
                j <= 4,
                bytes@.len() == 16,
                forall|q: int| 0 <= q < j ==> le32(bytes@, 4 * q) == lanes@[q],
            decreases 4 - j,
        {
            let w = lanes[j];
            bytes[4 * j] = (w % 0x100) as u8;
            bytes[4 * j + 1] = (w / 0x100 % 0x100) as u8;
            bytes[4 * j + 2] = (w / 0x1_0000 % 0x100) as u8;
            bytes[4 * j + 3] = (w / 0x100_0000) as u8;
            assert(le32(bytes@, 4 * j as int) == w);
            j += 1;
        }
        let d = BufferedData(bytes);
        assert(d.lanes_view() =~= lanes@);
        d
    }

    pub open spec fn lanes_view(&self) -> Seq<u32> {
        lanes_spec(self.0@)
    }

    /// The four lanes, each read little-endian.
    pub fn lanes(&self) -> (l: Lanes)
        ensures
            l@ == self.lanes_view(),
    {
        let b: &[u8] = &self.0;
        let l = [read_le32(b, 0), read_le32(b, 4), read_le32(b, 8), read_le32(b, 12)];
        assert(l@ =~= self.lanes_view());
        l
    }

    pub fn bytes(&self) -> (b: &Bytes)
        ensures
            *b == self.0,
    {
        &self.0
    }

    /// The lanes as a list, as `{:?}` writes `[1, 2, 3, 4]`.
    pub fn debug_string(&self) -> (s: String)
        ensures
            s@ == debug_list_of(self.lanes_view()),
    {
        debug_lanes(&self.lanes())
    }
}

/// Input bytes that do not yet fill a stripe.
#[derive(Debug, PartialEq, Eq, Clone, Copy)]
pub struct Buffer {
    pub offset: usize,
    pub data: BufferedData,
}

impl Buffer {
    pub open spec fn wf(&self) -> bool {
        self.offset < 16
    }

    /// The bytes held.
    pub open spec fn held(&self) -> Seq<u8> {
        self.data.0@.subrange(0, self.offset as int)
    }

    pub fn new() -> (b: Buffer)
        ensures
            b.wf(),
            b.offset == 0,
            b.held() == Seq::<u8>::empty(),
    {
        let b = Buffer { offset: 0, data: BufferedData::new() };
        assert(b.held() =~= Seq::<u8>::empty());
        b
    }

    /// Tops up a partly filled buffer from `data`. When that fills it, the
    /// full stripe is handed back and the buffer is emptied. Returns the
    /// part of `data` not taken; an empty buffer takes nothing.
    pub fn extend<'a>(&mut self, data: &'a [u8]) -> (r: (Option<Lanes>, &'a [u8]))
        requires
            old(self).wf(),
        ensures
            final(self).wf(),
            old(self).offset == 0 ==> r.0 is None && r.1@ == data@ && *final(self) == *old(self),
            old(self).offset > 0 && old(self).offset + data@.len() < 16 ==> {
                &&& r.0 is None
                &&& r.1@ == Seq::<u8>::empty()
                &&& final(self).held() == old(self).held() + data@
            },
            old(self).offset > 0 && old(self).offset + data@.len() >= 16 ==> {
                let n = 16 - old(self).offset;
                &&& r.0 is Some
                &&& r.0->Some_0@ == lanes_spec(old(self).held() + data@.take(n))
                &&& r.1@ == data@.skip(n)
                &&& final(self).offset == 0
                &&& final(self).data.0@ == old(self).held() + data@.take(n)
            },
    {
        if self.offset == 0 {
            return (None, data);
        }
        let room = 16 - self.offset;
        let n_to_copy = if data.len() < room {
            data.len()
        } else {
            room
        };
        let (src, rest) = data.split_at(n_to_copy);
        let ghost before = self.data.0@;
        let mut j: usize = 0;
        while j < n_to_copy
            invariant
                0 < self.offset < 16,
                self.offset == old(self).offset,
                before == old(self).data.0@,
                self.offset + n_to_copy <= 16,
                n_to_copy == src@.len(),
                j <= n_to_copy,
                self.data.0@.len() == 16,
                self.data.0@.subrange(0, self.offset as int) == before.subrange(0, self.offset as int),
                self.data.0@.subrange(self.offset as int, self.offset + j) == src@.subrange(0, j as int),
            decreases n_to_copy - j,
        {
            let ghost prev = self.data.0@;
            self.data.0[self.offset + j] = src[j];
            assert(self.data.0@.subrange(0, self.offset as int) =~= prev.subrange(0, self.offset as int));
            assert(self.data.0@.subrange(self.offset as int, self.offset + j + 1) =~= src@.subrange(
                0,
                j + 1,
            ));
            j += 1;
        }
        let ghost filled = self.data.0@.subrange(0, self.offset + n_to_copy);
        assert(filled =~= self.data.0@.subrange(0, self.offset as int) + self.data.0@.subrange(
            self.offset as int,
            self.offset + n_to_copy,
        ));
        assert(src@.subrange(0, n_to_copy as int) =~= src@);
        assert(filled =~= before.subrange(0, self.offset as int) + src@);
        assert(src@ =~= data@.take(n_to_copy as int));
        assert(rest@ =~= data@.skip(n_to_copy as int));
        assert(n_to_copy < room ==> n_to_copy == data@.len() && src@ =~= data@ && rest@ =~= Seq::<
            u8,
        >::empty());
        assert(n_to_copy == room ==> old(self).offset + data@.len() >= 16);
        self.offset = self.offset + n_to_copy;
        if self.offset == 16 {
            self.offset = 0;
            assert(self.data.0@ =~= filled);
            return (Some(self.data.lanes()), rest);
        }
        (None, rest)
    }

    /// Fills an empty buffer with `data`; empty `data` changes nothing.
    pub fn set(&mut self, data: &[u8])
        requires
            old(self).wf(),
            data@.len() < 16,
            data@.len() > 0 ==> old(self).offset == 0,
        ensures
            final(self).wf(),
            data@.len() == 0 ==> *final(self) == *old(self),
            data@.len() > 0 ==> final(self).held() == data@,
    {
        if data.len() == 0 {
            return;
        }
        let n_to_copy = data.len();
        let mut j: usize = 0;
        while j < n_to_copy
            invariant
                n_to_copy == data@.len() < 16,
                j <= n_to_copy,
                self.data.0@.len() == 16,
                self.data.0@.subrange(0, j as int) == data@.subrange(0, j as int),
            decreases n_to_copy - j,
        {
            self.data.0[j] = data[j];
            assert(self.data.0@.subrange(0, j + 1) =~= data@.subrange(0, j + 1));
            j += 1;
        }
        self.offset = n_to_copy;
        assert(data@.subrange(0, n_to_copy as int) =~= data@);
    }

    /// The bytes held.
    pub fn remaining(&self) -> (r: &[u8])
        requires
            self.wf(),
        ensures
            r@ == self.held(),
    {
        let b: &[u8] = &self.data.0;
        let (head, _) = b.split_at(self.offset);
        head
    }
}

/// The four accumulator lanes.
#[derive(Clone, Copy, PartialEq, Eq, Debug)]
pub struct Accumulator(pub Lanes);

impl Accumulator {
    pub open spec fn view4(&self) -> Acc4 {
        (self.0@[0], self.0@[1], self.0@[2], self.0@[3])
    }

    pub fn new(seed: u32) -> (a: Accumulator)
        ensures
            a.view4() == acc_init(seed),
    {
        Accumulator(
            [
                seed.wrapping_add(PRIME32_1).wrapping_add(PRIME32_2),
                seed.wrapping_add(PRIME32_2),
                seed,
                seed.wrapping_sub(PRIME32_1),
            ],
        )
    }

    /// Takes in one stripe, given as its four lanes.
    pub fn write(&mut self, lanes: Lanes)
        ensures
            final(self).view4() == (
                round_spec(old(self).0@[0], lanes@[0]),
                round_spec(old(self).0@[1], lanes@[1]),
                round_spec(old(self).0@[2], lanes@[2]),
                round_spec(old(self).0@[3], lanes@[3]),
            ),
    {
        let a0 = Self::round(self.0[0], lanes[0]);
        let a1 = Self::round(self.0[1], lanes[1]);
        let a2 = Self::round(self.0[2], lanes[2]);
        let a3 = Self::round(self.0[3], lanes[3]);
        self.0 = [a0, a1, a2, a3];
    }

    /// Takes in every whole stripe of `data`; returns what follows them.
    pub fn write_many<'d>(&mut self, data: &'d [u8]) -> (rest: &'d [u8])
        ensures
            final(self).view4() == acc_stripes(old(self).view4(), data@),
            rest@ == tail_of(data@),
            rest@.len() < 16,
    {
        let mut i: usize = 0;
        assert(data@.skip(0) =~= data@);
        while data.len() - i >= 16
            invariant
                i <= data@.len(),
                acc_stripes(self.view4(), data@.skip(i as int)) == acc_stripes(old(self).view4(), data@),
                tail_of(data@.skip(i as int)) == tail_of(data@),
            decreases data@.len() - i,
        {
            let ghost d = data@.skip(i as int);
            let ghost a = self.view4();
            let lanes = [
                read_le32(data, i),
                read_le32(data, i + 4),
                read_le32(data, i + 8),
                read_le32(data, i + 12),
            ];
            proof {
                lemma_stripe_step(a, d);
                assert(d.skip(16) =~= data@.skip(i + 16));
                assert(le32(d, 0) == le32(data@, i as int));
                assert(le32(d, 4) == le32(data@, i + 4));
                assert(le32(d, 8) == le32(data@, i + 8));
                assert(le32(d, 12) == le32(data@, i + 12));
                assert(lanes@ == lanes_spec(d));
            }
            self.write(lanes);
            assert(self.view4() == acc_write(a, d));
            i += 16;
        }
        let (_, rest) = data.split_at(i);
        assert(rest@ =~= data@.skip(i as int));
        proof {
            lemma_stripes_short(self.view4(), rest@);
        }
        rest
    }

    pub fn finish(&self) -> (h: u32)
        ensures
            h == acc_finish(self.view4()),
    {
        let acc1 = rotl(self.0[0], 1);
        let acc2 = rotl(self.0[1], 7);
        let acc3 = rotl(self.0[2], 12);
        let acc4 = rotl(self.0[3], 18);
        acc1.wrapping_add(acc2).wrapping_add(acc3).wrapping_add(acc4)
    }

    pub fn round(acc: u32, lane: u32) -> (r: u32)
        ensures
            r == round_spec(acc, lane),
    {
        reveal(round_spec);
        let acc = acc.wrapping_add(lane.wrapping_mul(PRIME32_2));
        let acc = rotl(acc, 13);
        acc.wrapping_mul(PRIME32_1)
    }
}

proof fn lemma_word_step(acc: u32, d: Seq<u8>)
    requires
        d.len() >= 4,
    ensures
        tail_words(acc, d) == tail_words(
            rotl_spec(acc.wrapping_add(le32(d, 0).wrapping_mul(PRIME32_3)), 17).wrapping_mul(
                PRIME32_4,
            ),
            d.skip(4),
        ),
{
}

proof fn lemma_byte_step(acc: u32, d: Seq<u8>)
    requires
        d.len() >= 1,
    ensures
        tail_bytes(acc, d) == tail_bytes(
            rotl_spec(acc.wrapping_add((d[0] as u32).wrapping_mul(PRIME32_5)), 11).wrapping_mul(
                PRIME32_1,
            ),
            d.skip(1),
        ),
{
}

/// A streaming xxHash32 hasher.
#[derive(Debug, Clone, Copy, PartialEq)]
pub struct Hasher {
    pub seed: u32,
    pub length: u64,
    pub accumulator: Accumulator,
    pub buffer: Buffer,
}

impl Hasher {
    /// The hasher is in the state that taking in `w` from a fresh hasher
    /// with its seed leaves.
    pub open spec fn models(&self, w: Seq<u8>) -> bool {
        &&& self.buffer.wf()
        &&& self.length == w.len()
        &&& self.accumulator.view4() == acc_stripes(acc_init(self.seed), w)
        &&& self.buffer.held() == tail_of(w)
    }

    /// The hash of `data` with `seed`, all at once.
    pub fn oneshot(seed: u32, data: &[u8]) -> (h: u32)
        ensures
            h == xxh32(seed, data@),
    {
        let len = data.len() as u64;
        let mut accumulator = Accumulator::new(seed);
        let rest = accumulator.write_many(data);
        Self::finish_with(seed, len, &accumulator, rest)
    }

    /// A hasher that has taken in nothing yet.
    pub fn with_seed(seed: u32) -> (h: Hasher)
        ensures
            h.seed == seed,
            h.models(Seq::<u8>::empty()),
    {
        let h = Hasher { seed, length: 0, accumulator: Accumulator::new(seed), buffer: Buffer::new() };
        proof {
            lemma_stripes_short(acc_init(seed), Seq::<u8>::empty());
        }
        h
    }

    pub fn seed(&self) -> (s: u32)
        ensures
            s == self.seed,
    {
        self.seed
    }

    /// The number of bytes taken in.
    pub fn total_len(&self) -> (n: u64)
        ensures
            n == self.length,
    {
        self.length
    }

    /// The number of bytes taken in, modulo 2^32.
    pub fn total_len_32(&self) -> (n: u32)
        ensures
            n == self.length as u32,
    {
        #[verifier::truncate]
        (self.length as u32)
    }

    /// The hash of everything taken in so far.
    pub fn finish_32(&self) -> (h: u32)
        requires
            self.buffer.wf(),
        ensures
            forall|w: Seq<u8>| #[trigger] self.models(w) ==> h == xxh32(self.seed, w),
    {
        Self::finish_with(self.seed, self.length, &self.accumulator, self.buffer.remaining())
    }

    /// The hash of everything taken in so far, widened to 64 bits.
    pub fn finish(&self) -> (h: u64)
        requires
            self.buffer.wf(),
        ensures
            forall|w: Seq<u8>| #[trigger] self.models(w) ==> h == xxh32(self.seed, w) as u64,
    {
        self.finish_32() as u64
    }

    /// The hash of `len` bytes in all, whose whole stripes left
    /// `accumulator` and of which `data` followed them.
    pub fn finish_with(seed: u32, len: u64, accumulator: &Accumulator, data: &[u8]) -> (h: u32)
        ensures
            h == finish_spec(seed, len, accumulator.view4(), data@),
    {
        let mut acc = if len < 16 {
            seed.wrapping_add(PRIME32_5)
        } else {
            accumulator.finish()
        };
        acc = acc.wrapping_add(#[verifier::truncate] (len as u32));
        let ghost start = acc;
        let mut i: usize = 0;
        assert(data@.skip(0) =~= data@);
        while data.len() - i >= 4
            invariant
                i <= data@.len(),
                tail_words(acc, data@.skip(i as int)) == tail_words(start, data@),
            decreases data@.len() - i,
        {
            let lane = read_le32(data, i);
            proof {
                let d = data@.skip(i as int);
                lemma_word_step(acc, d);
                assert(d.skip(4) =~= data@.skip(i + 4));
                assert(le32(d, 0) == lane);
            }
            acc = acc.wrapping_add(lane.wrapping_mul(PRIME32_3));
            acc = rotl(acc, 17).wrapping_mul(PRIME32_4);
            i += 4;
        }
        assert(tail_bytes(acc, data@.skip(i as int)) == tail_words(start, data@));
        while i < data.len()
            invariant
                i <= data@.len(),
                tail_bytes(acc, data@.skip(i as int)) == tail_words(start, data@),
            decreases data@.len() - i,
        {
            let lane = data[i] as u32;
            proof {
                let d = data@.skip(i as int);
                lemma_byte_step(acc, d);
                assert(d.skip(1) =~= data@.skip(i + 1));
            }
            acc = acc.wrapping_add(lane.wrapping_mul(PRIME32_5));
            acc = rotl(acc, 11).wrapping_mul(PRIME32_1);
            i += 1;
        }
        assert(data@.skip(i as int) =~= Seq::<u8>::empty());
        acc = acc ^ (acc >> 15u32);
        acc = acc.wrapping_mul(PRIME32_2);
        acc = acc ^ (acc >> 13u32);
        acc = acc.wrapping_mul(PRIME32_3);
        acc = acc ^ (acc >> 16u32);
        acc
    }

    /// Takes in `data`.
    pub fn write(&mut self, data: &[u8])
        requires
            old(self).buffer.wf(),
            old(self).length + data@.len() <= u64::MAX,
        ensures
            final(self).seed == old(self).seed,
            final(self).buffer.wf(),
            final(self).length == old(self).length + data@.len(),
            forall|w: Seq<u8>| #[trigger] old(self).models(w) ==> final(self).models(w + data@),
    {
        let len = data.len() as u64;
        let ghost a0 = self.accumulator.view4();
        let ghost t0 = self.buffer.held();
        let ghost d = data@;
        proof {
            lemma_absorb(a0, t0, d);
        }
        let (buf_lanes, rest) = self.buffer.extend(data);
        match buf_lanes {
            Some(lanes) => {
                self.accumulator.write(lanes);
                assert(self.accumulator.view4() == acc_write(a0, t0 + d.take(16 - t0.len())));
            },
            None => {},
        }
        proof {
            if t0.len() > 0 && t0.len() + d.len() < 16 {
                lemma_stripes_short(a0, rest@);
            }
        }
        assert(acc_stripes(self.accumulator.view4(), rest@) == acc_stripes(a0, t0 + d));
        assert(!(t0.len() > 0 && t0.len() + d.len() < 16) ==> tail_of(rest@) == tail_of(t0 + d));
        let tail = self.accumulator.write_many(rest);
        self.buffer.set(tail);
        assert(self.buffer.held() == tail_of(t0 + d)) by {
            if t0.len() > 0 && t0.len() + d.len() < 16 {
                lemma_stripes_short(a0, rest@);
            }
        }
        self.length = self.length + len;
        proof {
            lemma_models_step(*old(self), *self, d);
        }
    }
}

/// How taking in `d` changes accumulator `a0` with `t0` held.
proof fn lemma_absorb(a0: Acc4, t0: Seq<u8>, d: Seq<u8>)
    requires
        t0.len() < 16,
    ensures
        t0.len() == 0 ==> acc_stripes(a0, t0 + d) == acc_stripes(a0, d) && tail_of(t0 + d) == tail_of(
            d,
        ),
        t0.len() > 0 && t0.len() + d.len() < 16 ==> acc_stripes(a0, t0 + d) == a0 && tail_of(t0 + d)
            == t0 + d,
        t0.len() > 0 && t0.len() + d.len() >= 16 ==> {
            let n = 16 - t0.len();
            &&& acc_stripes(a0, t0 + d) == acc_stripes(acc_write(a0, t0 + d.take(n)), d.skip(n))
            &&& tail_of(t0 + d) == tail_of(d.skip(n))
        },
{
    let td = t0 + d;
    if t0.len() == 0 {
        assert(td =~= d);
    } else if t0.len() + d.len() < 16 {
        lemma_stripes_short(a0, td);
    } else {
        let n = 16 - t0.len();
        lemma_stripe_step(a0, td);
        assert(td.skip(16) =~= d.skip(n));
        let f = t0 + d.take(n);
        assert(td.take(16) =~= f.take(16));
        lemma_front_stripe(a0, td, f);
    }
}

/// A hasher whose accumulator and held bytes are what taking in `d` leaves
/// models every input of the earlier hasher followed by `d`.
proof fn lemma_models_step(h0: Hasher, h1: Hasher, d: Seq<u8>)
    requires
        h0.buffer.wf(),
        h1.buffer.wf(),
        h1.seed == h0.seed,
        h1.length == h0.length + d.len(),
        h1.accumulator.view4() == acc_stripes(h0.accumulator.view4(), h0.buffer.held() + d),
        h1.buffer.held() == tail_of(h0.buffer.held() + d),
    ensures
        forall|w: Seq<u8>| #[trigger] h0.models(w) ==> h1.models(w + d),
{
    assert forall|w: Seq<u8>| #[trigger] h0.models(w) implies h1.models(w + d) by {
        lemma_stripes_concat(acc_init(h0.seed), w, d);
    }
}

/// The seed from which hashers are built.
#[derive(Clone, Copy, Debug)]
pub struct State(pub u32);

impl State {
    pub fn with_seed(seed: u32) -> (s: State)
        ensures
            s.0 == seed,
    {
        State(seed)
    }

    /// A fresh hasher with this seed.
    pub fn build_hasher(&self) -> (h: Hasher)
        ensures
            h.seed == self.0,
            h.models(Seq::<u8>::empty()),
    {
        Hasher::with_seed(self.0)
    }
}

impl Default for Hasher {
    fn default() -> (h: Hasher)
        ensures
            h.seed == 0,
            h.models(Seq::<u8>::empty()),
    {
        Hasher::with_seed(0)
    }
}

} // verus!
