use crate::parted_hash::{
    row_of, shard_of, sign_of, sip_of, PartedHash, MAX_SHARD, ROWS, WIDTH,
};
use vstd::prelude::*;

verus! {

/// An owned byte string.
pub type Buf = Vec<u8>;

/// A key and its value.
pub type KV = (Buf, Buf);

/// The signature of an empty slot.
pub const EMPTY_SIGN: u32 = 0;

/// Why a write into the store was refused.
#[derive(Debug, Clone, Copy, PartialEq, Eq, Structural)]
pub enum StoreError {
    /// The key is longer than a descriptor can record.
    KeyTooLong,
    /// The value is longer than a descriptor can record.
    ValueTooLong,
    /// The shard's log has grown past what a 32-bit offset can address.
    LogFull,
    /// The key's row is full in a shard that covers a single shard index,
    /// which cannot be split any further.
    RowFull,
}

/// Where one key and value pair lies in a shard's log.
#[derive(Debug, Clone, Copy, PartialEq, Eq, Structural)]
pub struct Descriptor {
    pub offset: u32,
    pub klen: u16,
    pub vlen: u16,
}

impl Descriptor {
    pub open spec fn key_end(self) -> int {
        self.offset + self.klen
    }

    pub open spec fn value_end(self) -> int {
        self.offset + self.klen + self.vlen
    }
}

/// One fixed-width bucket: a signature and a descriptor per slot. A slot is
/// live exactly when its signature is not `EMPTY_SIGN`.
pub struct ShardRow {
    pub signs: Vec<u32>,
    pub descriptors: Vec<Descriptor>,
}

impl ShardRow {
    pub open spec fn wf(&self) -> bool {
        &&& self.signs@.len() == WIDTH
        &&& self.descriptors@.len() == WIDTH
    }

    /// A row whose slots are all empty.
    pub fn new() -> (r: ShardRow)
        ensures
            r.wf(),
            forall|i: int| 0 <= i < WIDTH ==> r.signs@[i] == EMPTY_SIGN,
    {
        let mut signs: Vec<u32> = Vec::new();
        let mut descriptors: Vec<Descriptor> = Vec::new();
        let mut i: usize = 0;
        while i < WIDTH
            invariant
                i <= WIDTH,
                signs@.len() == i,
                descriptors@.len() == i,
                forall|j: int| 0 <= j < i ==> signs@[j] == EMPTY_SIGN,
            decreases WIDTH - i,
        {
            signs.push(EMPTY_SIGN);
            descriptors.push(Descriptor { offset: 0, klen: 0, vlen: 0 });
            i += 1;
        }
        ShardRow { signs, descriptors }
    }
}

/// The fixed directory of a shard: `ROWS` rows.
pub struct ShardHeader {
    pub rows: Vec<ShardRow>,
}

impl ShardHeader {
    pub open spec fn wf(&self) -> bool {
        &&& self.rows@.len() == ROWS
        &&& forall|r: int| 0 <= r < ROWS ==> #[trigger] self.rows@[r].wf()
    }

    /// A header whose slots are all empty.
    pub fn new() -> (h: ShardHeader)
        ensures
            h.wf(),
            forall|r: int, i: int|
                0 <= r < ROWS && 0 <= i < WIDTH ==> #[trigger] h.rows@[r].signs@[i] == EMPTY_SIGN,
    {
        let mut rows: Vec<ShardRow> = Vec::new();
        let mut r: usize = 0;
        while r < ROWS
            invariant
                r <= ROWS,
                rows@.len() == r,
                forall|q: int| 0 <= q < r ==> #[trigger] rows@[q].wf(),
                forall|q: int, i: int|
                    0 <= q < r && 0 <= i < WIDTH ==> #[trigger] rows@[q].signs@[i] == EMPTY_SIGN,
            decreases ROWS - r,
        {
            rows.push(ShardRow::new());
            r += 1;
        }
        ShardHeader { rows }
    }
}

/// Whether two byte strings are equal.
fn same_bytes(a: &[u8], b: &[u8]) -> (r: bool)
    ensures
        r == (a@ == b@),
{
    if a.len() != b.len() {
        return false;
    }
    let mut i: usize = 0;
    while i < a.len()
        invariant
            a@.len() == b@.len(),
            i <= a@.len(),
            forall|j: int| 0 <= j < i ==> a@[j] == b@[j],
        decreases a@.len() - i,
    {
        if a[i] != b[i] {
            return false;
        }
        i += 1;
    }
    assert(a@ =~= b@);
    true
}

/// The bytes of `src` in `[from, to)`.
fn copy_range(src: &Vec<u8>, from: usize, to: usize) -> (r: Vec<u8>)
    requires
        from <= to <= src@.len(),
    ensures
        r@ == src@.subrange(from as int, to as int),
{
    let mut r: Vec<u8> = Vec::with_capacity(to - from);
    let mut i: usize = from;
    while i < to
        invariant
            from <= i <= to <= src@.len(),
            r@ == src@.subrange(from as int, i as int),
        decreases to - i,
    {
        r.push(src[i]);
        assert(r@ =~= src@.subrange(from as int, i + 1));
        i += 1;
    }
    r
}

/// The little-endian bytes of a 32-bit word.
pub open spec fn u32_le(x: u32) -> Seq<u8> {
    seq![
        (x % 0x100) as u8,
        (x / 0x100 % 0x100) as u8,
        (x / 0x1_0000 % 0x100) as u8,
        (x / 0x100_0000) as u8,
    ]
}

/// The little-endian bytes of a 16-bit word.
pub open spec fn u16_le(x: u16) -> Seq<u8> {
    seq![(x % 0x100) as u8, (x / 0x100) as u8]
}

/// A descriptor on disk: offset, key length, value length.
pub open spec fn descriptor_bytes(d: Descriptor) -> Seq<u8> {
    u32_le(d.offset) + u16_le(d.klen) + u16_le(d.vlen)
}

/// The first `n` signatures on disk.
pub open spec fn signs_bytes(s: Seq<u32>, n: int) -> Seq<u8>
    decreases n,
{
    if n <= 0 {
        seq![]
    } else {
        signs_bytes(s, n - 1) + u32_le(s[n - 1])
    }
}

/// The first `n` descriptors on disk.
pub open spec fn descriptors_bytes(s: Seq<Descriptor>, n: int) -> Seq<u8>
    decreases n,
{
    if n <= 0 {
        seq![]
    } else {
        descriptors_bytes(s, n - 1) + descriptor_bytes(s[n - 1])
    }
}

/// A row on disk: its signatures, then its descriptors.
pub open spec fn row_bytes(row: ShardRow) -> Seq<u8> {
    signs_bytes(row.signs@, WIDTH as int) + descriptors_bytes(row.descriptors@, WIDTH as int)
}

/// The first `n` rows on disk.
pub open spec fn rows_bytes(rows: Seq<ShardRow>, n: int) -> Seq<u8>
    decreases n,
{
    if n <= 0 {
        seq![]
    } else {
        rows_bytes(rows, n - 1) + row_bytes(rows[n - 1])
    }
}

/// Bytes of a header on disk: `ROWS` rows of `WIDTH` four-byte signatures
/// and `WIDTH` eight-byte descriptors.
pub const HEADER_SIZE: usize = 393216;

proof fn lemma_signs_bytes_len(s: Seq<u32>, n: int)
    requires
        n >= 0,
    ensures
        signs_bytes(s, n).len() == 4 * n,
    decreases n,
{
    if n > 0 {
        lemma_signs_bytes_len(s, n - 1);
    }
}

proof fn lemma_descriptors_bytes_len(s: Seq<Descriptor>, n: int)
    requires
        n >= 0,
    ensures
        descriptors_bytes(s, n).len() == 8 * n,
    decreases n,
{
    if n > 0 {
        lemma_descriptors_bytes_len(s, n - 1);
    }
}

proof fn lemma_rows_bytes_len(rows: Seq<ShardRow>, n: int)
    requires
        n >= 0,
    ensures
        rows_bytes(rows, n).len() == 6144 * n,
    decreases n,
{
    if n > 0 {
        lemma_rows_bytes_len(rows, n - 1);
        lemma_signs_bytes_len(rows[n - 1].signs@, WIDTH as int);
        lemma_descriptors_bytes_len(rows[n - 1].descriptors@, WIDTH as int);
    }
}

fn push_u32_le(out: &mut Vec<u8>, x: u32)
    ensures
        final(out)@ == old(out)@ + u32_le(x),
{
    out.push((x % 0x100) as u8);
    out.push((x / 0x100 % 0x100) as u8);
    out.push((x / 0x1_0000 % 0x100) as u8);
    out.push((x / 0x100_0000) as u8);
    assert(out@ =~= old(out)@ + u32_le(x));
}

fn push_u16_le(out: &mut Vec<u8>, x: u16)
    ensures
        final(out)@ == old(out)@ + u16_le(x),
{
    out.push((x % 0x100) as u8);
    out.push((x / 0x100) as u8);
    assert(out@ =~= old(out)@ + u16_le(x));
}

/// Bytes of one row on disk.
pub const ROW_SIZE: usize = 6144;

impl ShardRow {
    /// Appends the row as it lies on disk to `out`: its signatures, then
    /// its descriptors, every field little-endian.
    fn push_bytes(&self, out: &mut Vec<u8>)
        requires
            self.wf(),
        ensures
            final(out)@ == old(out)@ + row_bytes(*self),
    {
        let ghost base = out@;
        let mut i: usize = 0;
        while i < WIDTH
            invariant
                self.wf(),
                i <= WIDTH,
                out@ == base + signs_bytes(self.signs@, i as int),
            decreases WIDTH - i,
        {
            push_u32_le(out, self.signs[i]);
            assert(base + signs_bytes(self.signs@, i + 1) =~= base + signs_bytes(self.signs@, i as int)
                + u32_le(self.signs@[i as int]));
            i += 1;
        }
        let ghost mid = out@;
        let mut i: usize = 0;
        while i < WIDTH
            invariant
                self.wf(),
                i <= WIDTH,
                out@ == mid + descriptors_bytes(self.descriptors@, i as int),
            decreases WIDTH - i,
        {
            let d = self.descriptors[i];
            push_u32_le(out, d.offset);
            push_u16_le(out, d.klen);
            push_u16_le(out, d.vlen);
            assert(mid + descriptors_bytes(self.descriptors@, i + 1) =~= mid + descriptors_bytes(
                self.descriptors@,
                i as int,
            ) + descriptor_bytes(d));
            i += 1;
        }
        assert(out@ =~= base + row_bytes(*self));
    }

    /// The row as it lies on disk.
    pub fn to_bytes(&self) -> (out: Vec<u8>)
        requires
            self.wf(),
        ensures
            out@ == row_bytes(*self),
            out@.len() == ROW_SIZE,
    {
        proof {
            lemma_signs_bytes_len(self.signs@, WIDTH as int);
            lemma_descriptors_bytes_len(self.descriptors@, WIDTH as int);
        }
        let mut out: Vec<u8> = Vec::with_capacity(ROW_SIZE);
        self.push_bytes(&mut out);
        assert(out@ =~= row_bytes(*self));
        out
    }
}

impl ShardHeader {
    /// The header as it lies on disk: row after row, each row's
    /// signatures and then its descriptors, every field little-endian.
    /// Row `r` starts at byte `r * ROW_SIZE`.
    pub fn to_bytes(&self) -> (out: Vec<u8>)
        requires
            self.wf(),
        ensures
            out@ == rows_bytes(self.rows@, ROWS as int),
            out@.len() == HEADER_SIZE,
    {
        proof {
            lemma_rows_bytes_len(self.rows@, ROWS as int);
        }
        let mut out: Vec<u8> = Vec::with_capacity(HEADER_SIZE);
        let mut r: usize = 0;
        while r < ROWS
            invariant
                self.wf(),
                r <= ROWS,
                out@ == rows_bytes(self.rows@, r as int),
            decreases ROWS - r,
        {
            let row = &self.rows[r];
            assert(row.wf());
            row.push_bytes(&mut out);
            assert(out@ =~= rows_bytes(self.rows@, r + 1));
            r += 1;
        }
        out
    }
}

/// One shard: the directory of rows and the append-only log of key and
/// value bytes that its descriptors point into. It is responsible for the
/// shard indices in `[start, end)`.
pub struct ShardFile {
    pub start: u32,
    pub end: u32,
    pub header: ShardHeader,
    pub log: Vec<u8>,
}

impl ShardFile {
    pub open spec fn sign_at(&self, r: int, i: int) -> u32 {
        self.header.rows@[r].signs@[i]
    }

    pub open spec fn live(&self, r: int, i: int) -> bool {
        self.sign_at(r, i) != EMPTY_SIGN
    }

    pub open spec fn desc_at(&self, r: int, i: int) -> Descriptor {
        self.header.rows@[r].descriptors@[i]
    }

    pub open spec fn key_at(&self, r: int, i: int) -> Seq<u8> {
        let d = self.desc_at(r, i);
        self.log@.subrange(d.offset as int, d.key_end())
    }

    pub open spec fn value_at(&self, r: int, i: int) -> Seq<u8> {
        let d = self.desc_at(r, i);
        self.log@.subrange(d.key_end(), d.value_end())
    }

    /// Slot `i` of row `r` is live and holds key `k`.
    pub open spec fn holds(&self, r: int, i: int, k: Seq<u8>) -> bool {
        &&& 0 <= i < WIDTH
        &&& self.live(r, i)
        &&& self.key_at(r, i) == k
    }

    /// A live slot points inside the log, and its key hashes to the slot's
    /// signature, to its row and into this shard's range.
    pub open spec fn slot_wf(&self, r: int, i: int) -> bool {
        self.live(r, i) ==> {
            let h = sip_of(self.key_at(r, i));
            &&& self.desc_at(r, i).value_end() <= self.log@.len()
            &&& self.sign_at(r, i) == sign_of(h)
            &&& row_of(h) == r
            &&& self.start <= shard_of(h) < self.end
        }
    }

    pub open spec fn wf(&self) -> bool {
        &&& self.start < self.end <= MAX_SHARD
        &&& self.header.wf()
        &&& forall|r: int, i: int| 0 <= r < ROWS && 0 <= i < WIDTH ==> #[trigger] self.slot_wf(r, i)
        &&& forall|r: int, i: int, j: int|
            0 <= r < ROWS && 0 <= i < WIDTH && 0 <= j < WIDTH && self.live(r, i) && self.live(r, j)
                && #[trigger] self.key_at(r, i) == #[trigger] self.key_at(r, j) ==> i == j
    }

    /// The value stored under `k`, if any.
    pub open spec fn lookup(&self, k: Seq<u8>) -> Option<Seq<u8>> {
        let r = row_of(sip_of(k));
        if exists|i: int| self.holds(r, i, k) {
            Some(self.value_at(r, choose|i: int| self.holds(r, i, k)))
        } else {
            None
        }
    }

    pub open spec fn slot_entries(&self, r: int, i: int) -> Seq<(Seq<u8>, Seq<u8>)> {
        if self.live(r, i) {
            seq![(self.key_at(r, i), self.value_at(r, i))]
        } else {
            seq![]
        }
    }

    /// The live pairs of the first `n` slots of row `r`, in slot order.
    pub open spec fn row_entries(&self, r: int, n: int) -> Seq<(Seq<u8>, Seq<u8>)>
        decreases n,
    {
        if n <= 0 {
            seq![]
        } else {
            self.row_entries(r, n - 1) + self.slot_entries(r, n - 1)
        }
    }

    /// The live pairs of the first `n` rows, row by row.
    pub open spec fn rows_entries(&self, n: int) -> Seq<(Seq<u8>, Seq<u8>)>
        decreases n,
    {
        if n <= 0 {
            seq![]
        } else {
            self.rows_entries(n - 1) + self.row_entries(n - 1, WIDTH as int)
        }
    }

    /// Every live pair of the shard, row by row and slot by slot.
    pub open spec fn entries(&self) -> Seq<(Seq<u8>, Seq<u8>)> {
        self.rows_entries(ROWS as int)
    }

    pub open spec fn same_live(&self, other: &ShardFile) -> bool {
        forall|r: int, i: int|
            0 <= r < ROWS && 0 <= i < WIDTH ==> #[trigger] self.live(r, i) == other.live(r, i)
    }

    /// An empty shard for the shard indices in `[start, end)`.
    pub fn open(start: u32, end: u32) -> (s: ShardFile)
        requires
            start < end <= MAX_SHARD,
        ensures
            s.wf(),
            s.start == start,
            s.end == end,
            s.log@.len() == 0,
            forall|r: int, i: int| 0 <= r < ROWS && 0 <= i < WIDTH ==> !#[trigger] s.live(r, i),
            forall|k: Seq<u8>| #[trigger] s.lookup(k) is None,
            s.entries() == Seq::<(Seq<u8>, Seq<u8>)>::empty(),
    {
        let s = ShardFile { start, end, header: ShardHeader::new(), log: Vec::new() };
        assert(forall|r: int, i: int| 0 <= r < ROWS && 0 <= i < WIDTH ==> !#[trigger] s.live(r, i));
        proof {
            s.lemma_no_live_no_entries(ROWS as int);
        }
        s
    }

    proof fn lemma_no_live_no_entries(&self, n: int)
        requires
            0 <= n <= ROWS,
            self.header.wf(),
            forall|r: int, i: int| 0 <= r < ROWS && 0 <= i < WIDTH ==> !#[trigger] self.live(r, i),
        ensures
            self.rows_entries(n) == Seq::<(Seq<u8>, Seq<u8>)>::empty(),
        decreases n,
    {
        if n > 0 {
            self.lemma_no_live_no_entries(n - 1);
            self.lemma_no_live_row(n - 1, WIDTH as int);
            assert(self.rows_entries(n) =~= Seq::<(Seq<u8>, Seq<u8>)>::empty());
        }
    }

    proof fn lemma_no_live_row(&self, r: int, n: int)
        requires
            0 <= r < ROWS,
            0 <= n <= WIDTH,
            forall|r: int, i: int| 0 <= r < ROWS && 0 <= i < WIDTH ==> !#[trigger] self.live(r, i),
        ensures
            self.row_entries(r, n) == Seq::<(Seq<u8>, Seq<u8>)>::empty(),
        decreases n,
    {
        if n > 0 {
            self.lemma_no_live_row(r, n - 1);
            assert(!self.live(r, n - 1));
            assert(self.row_entries(r, n) =~= Seq::<(Seq<u8>, Seq<u8>)>::empty());
        }
    }

    /// Shards with the same live slots hold the same number of pairs.
    pub proof fn lemma_same_live_same_count(&self, other: &ShardFile)
        requires
            self.same_live(other),
        ensures
            self.entries().len() == other.entries().len(),
    {
        self.lemma_same_live_rows(other, ROWS as int);
    }

    proof fn lemma_same_live_rows(&self, other: &ShardFile, n: int)
        requires
            0 <= n <= ROWS,
            self.same_live(other),
        ensures
            self.rows_entries(n).len() == other.rows_entries(n).len(),
        decreases n,
    {
        if n > 0 {
            self.lemma_same_live_rows(other, n - 1);
            self.lemma_same_live_row(other, n - 1, WIDTH as int);
        }
    }

    proof fn lemma_same_live_row(&self, other: &ShardFile, r: int, n: int)
        requires
            0 <= r < ROWS,
            0 <= n <= WIDTH,
            self.same_live(other),
        ensures
            self.row_entries(r, n).len() == other.row_entries(r, n).len(),
        decreases n,
    {
        if n > 0 {
            self.lemma_same_live_row(other, r, n - 1);
            assert(self.live(r, n - 1) == other.live(r, n - 1));
        }
    }

    /// Slot `(q, j)` has the same signature and descriptor in both shards.
    pub open spec fn slot_same(&self, other: &ShardFile, q: int, j: int) -> bool {
        &&& self.sign_at(q, j) == other.sign_at(q, j)
        &&& self.desc_at(q, j) == other.desc_at(q, j)
    }

    /// Row `r` has an empty slot.
    pub open spec fn has_empty(&self, r: int) -> bool {
        exists|i: int| 0 <= i < WIDTH && !self.live(r, i)
    }

    /// In a well-formed shard, a slot that holds `k` in `k`'s row is the one
    /// that `lookup` reads.
    pub proof fn lemma_lookup_at(&self, r: int, i: int, k: Seq<u8>)
        requires
            self.wf(),
            r == row_of(sip_of(k)),
            self.holds(r, i, k),
        ensures
            self.lookup(k) == Some(self.value_at(r, i)),
    {
        let j = choose|j: int| self.holds(r, j, k);
        assert(self.key_at(r, i) == self.key_at(r, j));
    }

    /// Two well-formed shards whose slots in `k`'s row agree on holding `k`,
    /// and on its value, agree on `lookup(k)`.
    pub proof fn lemma_lookup_frame(&self, other: &ShardFile, k: Seq<u8>)
        requires
            self.wf(),
            other.wf(),
            forall|j: int|
                0 <= j < WIDTH ==> #[trigger] self.holds(row_of(sip_of(k)), j, k) == other.holds(
                    row_of(sip_of(k)),
                    j,
                    k,
                ),
            forall|j: int|
                0 <= j < WIDTH && #[trigger] self.holds(row_of(sip_of(k)), j, k) ==> self.value_at(
                    row_of(sip_of(k)),
                    j,
                ) == other.value_at(row_of(sip_of(k)), j),
        ensures
            self.lookup(k) == other.lookup(k),
    {
        let r = row_of(sip_of(k));
        if exists|j: int| self.holds(r, j, k) {
            let j = choose|j: int| self.holds(r, j, k);
            self.lemma_lookup_at(r, j, k);
            other.lemma_lookup_at(r, j, k);
        } else {
            assert forall|j: int| !other.holds(r, j, k) by {
                if 0 <= j < WIDTH {
                    assert(self.holds(r, j, k) == other.holds(r, j, k));
                }
            }
        }
    }

    /// A shard that has every live slot of `self` and one more, `(r0, i0)`,
    /// holds one more pair.
    pub proof fn lemma_one_more_live(&self, other: &ShardFile, r0: int, i0: int)
        requires
            0 <= r0 < ROWS,
            0 <= i0 < WIDTH,
            !self.live(r0, i0),
            forall|q: int, j: int|
                0 <= q < ROWS && 0 <= j < WIDTH ==> #[trigger] other.live(q, j) == (self.live(q, j) || (
                q == r0 && j == i0)),
        ensures
            other.entries().len() == self.entries().len() + 1,
    {
        self.lemma_one_more_rows(other, r0, i0, ROWS as int);
    }

    proof fn lemma_one_more_rows(&self, other: &ShardFile, r0: int, i0: int, n: int)
        requires
            0 <= r0 < ROWS,
            0 <= i0 < WIDTH,
            0 <= n <= ROWS,
            !self.live(r0, i0),
            forall|q: int, j: int|
                0 <= q < ROWS && 0 <= j < WIDTH ==> #[trigger] other.live(q, j) == (self.live(q, j) || (
                q == r0 && j == i0)),
        ensures
            other.rows_entries(n).len() == self.rows_entries(n).len() + if n > r0 {
                1int
            } else {
                0int
            },
        decreases n,
    {
        if n > 0 {
            self.lemma_one_more_rows(other, r0, i0, n - 1);
            self.lemma_one_more_row(other, r0, i0, n - 1, WIDTH as int);
        }
    }

    proof fn lemma_one_more_row(&self, other: &ShardFile, r0: int, i0: int, r: int, m: int)
        requires
            0 <= r0 < ROWS,
            0 <= i0 < WIDTH,
            0 <= r < ROWS,
            0 <= m <= WIDTH,
            !self.live(r0, i0),
            forall|q: int, j: int|
                0 <= q < ROWS && 0 <= j < WIDTH ==> #[trigger] other.live(q, j) == (self.live(q, j) || (
                q == r0 && j == i0)),
        ensures
            other.row_entries(r, m).len() == self.row_entries(r, m).len() + if r == r0 && m > i0 {
                1int
            } else {
                0int
            },
        decreases m,
    {
        if m > 0 {
            self.lemma_one_more_row(other, r0, i0, r, m - 1);
            assert(other.live(r, m - 1) == (self.live(r, m - 1) || (r == r0 && m - 1 == i0)));
        }
    }

    /// The slot of `k`'s row that holds `k`, when one does.
    pub open spec fn slot_of(&self, k: Seq<u8>) -> int {
        choose|j: int| self.holds(row_of(sip_of(k)), j, k)
    }

    /// Pair `e` is the key and value of the slot that holds its key.
    pub open spec fn stored(&self, e: (Seq<u8>, Seq<u8>)) -> bool {
        &&& self.holds(row_of(sip_of(e.0)), self.slot_of(e.0), e.0)
        &&& self.value_at(row_of(sip_of(e.0)), self.slot_of(e.0)) == e.1
    }

    /// A sequence of pairs whose keys are pairwise distinct.
    pub open spec fn distinct_keys(es: Seq<(Seq<u8>, Seq<u8>)>) -> bool {
        forall|p1: int, p2: int|
            0 <= p1 < es.len() && 0 <= p2 < es.len() && p1 != p2 ==> #[trigger] es[p1].0
                != #[trigger] es[p2].0
    }

    /// The live slot `(r, i)` is the slot that holds its key.
    proof fn lemma_slot_of(&self, r: int, i: int)
        requires
            self.wf(),
            0 <= r < ROWS,
            0 <= i < WIDTH,
            self.live(r, i),
        ensures
            row_of(sip_of(self.key_at(r, i))) == r,
            self.slot_of(self.key_at(r, i)) == i,
            self.stored((self.key_at(r, i), self.value_at(r, i))),
    {
        let k = self.key_at(r, i);
        assert(self.slot_wf(r, i));
        assert(self.holds(r, i, k));
        let j = self.slot_of(k);
        assert(self.key_at(r, i) == self.key_at(r, j));
    }

    proof fn lemma_row_entries_slots(&self, r: int, m: int)
        requires
            self.wf(),
            0 <= r < ROWS,
            0 <= m <= WIDTH,
        ensures
            forall|p: int|
                0 <= p < self.row_entries(r, m).len() ==> {
                    let e = #[trigger] self.row_entries(r, m)[p];
                    &&& self.stored(e)
                    &&& row_of(sip_of(e.0)) == r
                    &&& self.slot_of(e.0) < m
                },
            Self::distinct_keys(self.row_entries(r, m)),
            forall|i: int|
                0 <= i < m && #[trigger] self.live(r, i) ==> exists|p: int|
                    0 <= p < self.row_entries(r, m).len() && self.row_entries(r, m)[p] == (
                        self.key_at(r, i),
                        self.value_at(r, i),
                    ),
        decreases m,
    {
        if m > 0 {
            self.lemma_row_entries_slots(r, m - 1);
            let a = self.row_entries(r, m - 1);
            let b = self.slot_entries(r, m - 1);
            let es = self.row_entries(r, m);
            assert(es == a + b);
            if self.live(r, m - 1) {
                self.lemma_slot_of(r, m - 1);
            }
            assert forall|p: int| 0 <= p < es.len() implies {
                let e = #[trigger] es[p];
                &&& self.stored(e)
                &&& row_of(sip_of(e.0)) == r
                &&& self.slot_of(e.0) < m
            } by {
                if p < a.len() {
                    assert(es[p] == a[p]);
                } else {
                    assert(es[p] == b[p - a.len()]);
                }
            }
            assert forall|p1: int, p2: int|
                0 <= p1 < es.len() && 0 <= p2 < es.len() && p1 != p2 implies #[trigger] es[p1].0
                != #[trigger] es[p2].0 by {
                if p1 < a.len() && p2 < a.len() {
                    assert(es[p1] == a[p1] && es[p2] == a[p2]);
                } else if p1 < a.len() {
                    assert(es[p1] == a[p1]);
                    assert(es[p2] == b[p2 - a.len()]);
                } else if p2 < a.len() {
                    assert(es[p2] == a[p2]);
                    assert(es[p1] == b[p1 - a.len()]);
                }
            }
            assert forall|i: int| 0 <= i < m && #[trigger] self.live(r, i) implies exists|p: int|
                0 <= p < es.len() && es[p] == (self.key_at(r, i), self.value_at(r, i)) by {
                if i < m - 1 {
                    let p = choose|p: int|
                        0 <= p < a.len() && a[p] == (self.key_at(r, i), self.value_at(r, i));
                    assert(es[p] == a[p]);
                } else {
                    assert(es[a.len() as int] == b[0]);
                }
            }
        }
    }

    proof fn lemma_rows_entries_slots(&self, n: int)
        requires
            self.wf(),
            0 <= n <= ROWS,
        ensures
            forall|p: int|
                0 <= p < self.rows_entries(n).len() ==> {
                    let e = #[trigger] self.rows_entries(n)[p];
                    &&& self.stored(e)
                    &&& row_of(sip_of(e.0)) < n
                },
            Self::distinct_keys(self.rows_entries(n)),
            forall|r: int, i: int|
                0 <= r < n && 0 <= i < WIDTH && #[trigger] self.live(r, i) ==> exists|p: int|
                    0 <= p < self.rows_entries(n).len() && self.rows_entries(n)[p] == (
                        self.key_at(r, i),
                        self.value_at(r, i),
                    ),
        decreases n,
    {
        if n > 0 {
            self.lemma_rows_entries_slots(n - 1);
            self.lemma_row_entries_slots(n - 1, WIDTH as int);
            let a = self.rows_entries(n - 1);
            let b = self.row_entries(n - 1, WIDTH as int);
            let es = self.rows_entries(n);
            assert(es == a + b);
            assert forall|p: int| 0 <= p < es.len() implies {
                let e = #[trigger] es[p];
                &&& self.stored(e)
                &&& row_of(sip_of(e.0)) < n
            } by {
                if p < a.len() {
                    assert(es[p] == a[p]);
                } else {
                    assert(es[p] == b[p - a.len()]);
                }
            }
            assert forall|p1: int, p2: int|
                0 <= p1 < es.len() && 0 <= p2 < es.len() && p1 != p2 implies #[trigger] es[p1].0
                != #[trigger] es[p2].0 by {
                if p1 < a.len() && p2 < a.len() {
                    assert(es[p1] == a[p1] && es[p2] == a[p2]);
                } else if p1 >= a.len() && p2 >= a.len() {
                    assert(es[p1] == b[p1 - a.len()] && es[p2] == b[p2 - a.len()]);
                } else if p1 < a.len() {
                    assert(es[p1] == a[p1]);
                    assert(es[p2] == b[p2 - a.len()]);
                } else {
                    assert(es[p2] == a[p2]);
                    assert(es[p1] == b[p1 - a.len()]);
                }
            }
            assert forall|r: int, i: int|
                0 <= r < n && 0 <= i < WIDTH && #[trigger] self.live(r, i) implies exists|p: int|
                0 <= p < es.len() && es[p] == (self.key_at(r, i), self.value_at(r, i)) by {
                if r < n - 1 {
                    let p = choose|p: int|
                        0 <= p < a.len() && a[p] == (self.key_at(r, i), self.value_at(r, i));
                    assert(es[p] == a[p]);
                } else {
                    let p = choose|p: int|
                        0 <= p < b.len() && b[p] == (self.key_at(r, i), self.value_at(r, i));
                    assert(es[a.len() + p] == b[p]);
                }
            }
        }
    }

    /// The pairs `iter` returns are exactly what `lookup` gives: each
    /// pair's value is the value looked up under its key, no key comes
    /// twice, every stored key comes, and every key lies in the shard's
    /// range.
    pub proof fn lemma_entries_lookup(&self)
        requires
            self.wf(),
        ensures
            forall|p: int|
                0 <= p < self.entries().len() ==> self.lookup(#[trigger] self.entries()[p].0) == Some(
                    self.entries()[p].1,
                ),
            forall|p: int|
                0 <= p < self.entries().len() ==> self.start <= shard_of(
                    sip_of(#[trigger] self.entries()[p].0),
                ) < self.end,
            Self::distinct_keys(self.entries()),
            forall|k: Seq<u8>| #[trigger] self.lookup(k) is Some ==> exists|p: int|
                0 <= p < self.entries().len() && self.entries()[p] == (k, self.lookup(k)->Some_0),
    {
        self.lemma_rows_entries_slots(ROWS as int);
        let es = self.entries();
        assert forall|p: int| 0 <= p < es.len() implies self.lookup(#[trigger] es[p].0) == Some(es[p].1)
            && self.start <= shard_of(sip_of(es[p].0)) < self.end by {
            let e = es[p];
            let r = row_of(sip_of(e.0));
            assert(self.stored(e));
            assert(self.slot_wf(r, self.slot_of(e.0)));
            self.lemma_lookup_at(r, self.slot_of(e.0), e.0);
        }
        assert forall|k: Seq<u8>| #[trigger] self.lookup(k) is Some implies exists|p: int|
            0 <= p < es.len() && es[p] == (k, self.lookup(k)->Some_0) by {
            let r = row_of(sip_of(k));
            let i = choose|i: int| self.holds(r, i, k);
            self.lemma_lookup_at(r, i, k);
            assert(self.live(r, i));
        }
    }

    pub fn header_row(&self, r: usize) -> (row: &ShardRow)
        requires
            self.header.wf(),
            r < ROWS,
        ensures
            *row == self.header.rows@[r as int],
    {
        &self.header.rows[r]
    }

    /// The key and the value that `desc` points at.
    pub fn read(&self, desc: Descriptor) -> (kv: KV)
        requires
            desc.value_end() <= self.log@.len(),
        ensures
            kv.0@ == self.log@.subrange(desc.offset as int, desc.key_end()),
            kv.1@ == self.log@.subrange(desc.key_end(), desc.value_end()),
    {
        let len = self.log.len();
        assert(desc.value_end() <= len);
        let kstart = desc.offset as usize;
        let kend = kstart + desc.klen as usize;
        let vend = kend + desc.vlen as usize;
        (copy_range(&self.log, kstart, kend), copy_range(&self.log, kend, vend))
    }

    /// Appends `k` then `v` to the log and returns where they lie.
    pub fn write(&mut self, k: &[u8], v: &[u8]) -> (d: Descriptor)
        requires
            old(self).log@.len() <= u32::MAX,
            k@.len() <= u16::MAX,
            v@.len() <= u16::MAX,
        ensures
            final(self).log@ == old(self).log@ + k@ + v@,
            final(self).start == old(self).start,
            final(self).end == old(self).end,
            final(self).header == old(self).header,
            d.offset == old(self).log@.len(),
            d.klen == k@.len(),
            d.vlen == v@.len(),
    {
        let offset = self.log.len() as u32;
        let mut i: usize = 0;
        while i < k.len()
            invariant
                i <= k@.len(),
                self.log@ == old(self).log@ + k@.subrange(0, i as int),
                self.start == old(self).start,
                self.end == old(self).end,
                self.header == old(self).header,
            decreases k@.len() - i,
        {
            self.log.push(k[i]);
            assert(k@.subrange(0, i + 1) =~= k@.subrange(0, i as int).push(k@[i as int]));
            i += 1;
        }
        assert(k@.subrange(0, k@.len() as int) =~= k@);
        let mut i: usize = 0;
        while i < v.len()
            invariant
                i <= v@.len(),
                self.log@ == old(self).log@ + k@ + v@.subrange(0, i as int),
                self.start == old(self).start,
                self.end == old(self).end,
                self.header == old(self).header,
            decreases v@.len() - i,
        {
            self.log.push(v[i]);
            assert(v@.subrange(0, i + 1) =~= v@.subrange(0, i as int).push(v@[i as int]));
            i += 1;
        }
        assert(v@.subrange(0, v@.len() as int) =~= v@);
        Descriptor { offset, klen: k.len() as u16, vlen: v.len() as u16 }
    }

    /// The value stored under `key`, whose hash is `ph`.
    pub fn get(&self, ph: PartedHash, key: &[u8]) -> (v: Option<Buf>)
        requires
            self.wf(),
            ph.0 == sip_of(key@),
        ensures
            opt_view(v) == self.lookup(key@),
    {
        let r = ph.row();
        let sign = ph.sign();
        let row = self.header_row(r);
        let mut i: usize = 0;
        while i < WIDTH
            invariant
                self.wf(),
                ph.0 == sip_of(key@),
                r == row_of(ph.0),
                r < ROWS,
                sign == sign_of(ph.0),
                *row == self.header.rows@[r as int],
                i <= WIDTH,
                forall|j: int| 0 <= j < i ==> !#[trigger] self.holds(r as int, j, key@),
            decreases WIDTH - i,
        {
            assert(self.slot_wf(r as int, i as int));
            assert(self.header.rows@[r as int].wf());
            if row.signs[i] == sign {
                let (k, v) = self.read(row.descriptors[i]);
                if same_bytes(k.as_slice(), key) {
                    proof {
                        self.lemma_lookup_at(r as int, i as int, key@);
                    }
                    return Some(v);
                }
            }
            i += 1;
        }
        None
    }

    /// Writes `key` and `val` to the log and points slot `i` of row `r` at
    /// them; the slot either holds `key` already or is empty in a row
    /// without `key`.
    fn place(&mut self, r: usize, i: usize, sign: u32, key: &[u8], val: &[u8])
        requires
            old(self).wf(),
            r < ROWS,
            i < WIDTH,
            r == row_of(sip_of(key@)),
            sign == sign_of(sip_of(key@)),
            old(self).start <= shard_of(sip_of(key@)) < old(self).end,
            key@.len() <= u16::MAX,
            val@.len() <= u16::MAX,
            old(self).log@.len() <= u32::MAX,
            old(self).holds(r as int, i as int, key@) || (!old(self).live(r as int, i as int)
                && forall|j: int| 0 <= j < WIDTH ==> !#[trigger] old(self).holds(r as int, j, key@)),
        ensures
            final(self).wf(),
            final(self).start == old(self).start,
            final(self).end == old(self).end,
            forall|k: Seq<u8>|
                #[trigger] final(self).lookup(k) == if k == key@ {
                    Some(val@)
                } else {
                    old(self).lookup(k)
                },
            forall|q: int, j: int|
                0 <= q < ROWS && 0 <= j < WIDTH ==> #[trigger] final(self).live(q, j) == (old(self).live(q, j) || (q == r && j == i)),
            final(self).log@ == old(self).log@ + key@ + val@,
            final(self).holds(r as int, i as int, key@),
            final(self).desc_at(r as int, i as int) == (Descriptor {
                offset: old(self).log@.len() as u32,
                klen: key@.len() as u16,
                vlen: val@.len() as u16,
            }),
            forall|q: int, j: int|
                0 <= q < ROWS && 0 <= j < WIDTH && !(q == r && j == i) ==> #[trigger] final(self).slot_same(old(self), q, j),
    {
        let ghost pre = *self;
        let d = self.write(key, val);
        assert(self.header.rows@[r as int].wf());
        self.header.rows[r].signs[i] = sign;
        assert(self.header.rows@[r as int].descriptors@.len() == WIDTH);
        self.header.rows[r].descriptors[i] = d;
        proof {
            let post = *self;
            let ri = r as int;
            let ii = i as int;
            assert(post.key_at(ri, ii) =~= key@);
            assert(post.value_at(ri, ii) =~= val@);
            assert forall|q: int, j: int|
                0 <= q < ROWS && 0 <= j < WIDTH && !(q == ri && j == ii) && pre.live(q, j) implies {
                &&& #[trigger] post.key_at(q, j) == pre.key_at(q, j)
                &&& post.value_at(q, j) == pre.value_at(q, j)
            } by {
                assert(pre.slot_wf(q, j));
                assert(post.key_at(q, j) =~= pre.key_at(q, j));
                assert(post.value_at(q, j) =~= pre.value_at(q, j));
            }
            assert(post.header.wf()) by {
                assert forall|q: int| 0 <= q < ROWS implies #[trigger] post.header.rows@[q].wf() by {
                    assert(pre.header.rows@[q].wf());
                }
            }
            assert forall|q: int, j: int| 0 <= q < ROWS && 0 <= j < WIDTH implies #[trigger] post.slot_wf(
                q,
                j,
            ) by {
                assert(pre.slot_wf(q, j));
            }
            assert forall|q: int, j1: int, j2: int|
                0 <= q < ROWS && 0 <= j1 < WIDTH && 0 <= j2 < WIDTH && post.live(q, j1) && post.live(
                    q,
                    j2,
                ) && #[trigger] post.key_at(q, j1) == #[trigger] post.key_at(q, j2) implies j1 == j2 by {
                if q == ri && j1 == ii && j2 != ii {
                    assert(pre.holds(ri, j2, key@));
                    assert(pre.key_at(ri, ii) == pre.key_at(ri, j2));
                } else if q == ri && j2 == ii && j1 != ii {
                    assert(pre.holds(ri, j1, key@));
                    assert(pre.key_at(ri, ii) == pre.key_at(ri, j1));
                } else if !(q == ri && (j1 == ii || j2 == ii)) {
                    assert(pre.key_at(q, j1) == pre.key_at(q, j2));
                }
            }
            assert forall|k: Seq<u8>|
                #[trigger] post.lookup(k) == if k == key@ {
                    Some(val@)
                } else {
                    pre.lookup(k)
                } by {
                if k == key@ {
                    post.lemma_lookup_at(ri, ii, key@);
                } else {
                    let rk = row_of(sip_of(k));
                    assert forall|j: int| 0 <= j < WIDTH implies #[trigger] pre.holds(rk, j, k)
                        == post.holds(rk, j, k) && (pre.holds(rk, j, k) ==> pre.value_at(rk, j)
                        == post.value_at(rk, j)) by {
                        if !(rk == ri && j == ii) && pre.live(rk, j) {
                            assert(post.key_at(rk, j) == pre.key_at(rk, j));
                        }
                    }
                    pre.lemma_lookup_frame(&post, k);
                }
            }
        }
    }

    /// Stores `val` under `key`, whose hash is `ph`: over the slot that
    /// holds `key`, else in the first empty slot of its row. Returns false,
    /// and changes nothing, when the key is new and its row is full.
    pub fn set(&mut self, ph: PartedHash, key: &[u8], val: &[u8]) -> (res: Result<bool, StoreError>)
        requires
            old(self).wf(),
            ph.0 == sip_of(key@),
            old(self).start <= shard_of(ph.0) < old(self).end,
            key@.len() <= u16::MAX,
            val@.len() <= u16::MAX,
        ensures
            final(self).wf(),
            final(self).start == old(self).start,
            final(self).end == old(self).end,
            (res is Err) == (old(self).log@.len() > u32::MAX),
            res is Err ==> res == Err::<bool, StoreError>(StoreError::LogFull),
            res is Ok ==> res->Ok_0 == (old(self).lookup(key@) is Some || old(self).has_empty(
                row_of(ph.0),
            )),
            res != Ok::<bool, StoreError>(true) ==> *final(self) == *old(self),
            res == Ok::<bool, StoreError>(true) ==> forall|k: Seq<u8>|
                #[trigger] final(self).lookup(k) == if k == key@ {
                    Some(val@)
                } else {
                    old(self).lookup(k)
                },
            res == Ok::<bool, StoreError>(true) && old(self).lookup(key@) is Some ==> final(self).same_live(old(self)),
            forall|r: int, i: int|
                0 <= r < ROWS && 0 <= i < WIDTH && #[trigger] final(self).live(r, i) ==> old(self).live(r, i) || (r == row_of(ph.0) && forall|j: int|
                    0 <= j < i ==> old(self).live(r, j)),
            forall|r: int, i: int|
                0 <= r < ROWS && 0 <= i < WIDTH && #[trigger] old(self).live(r, i) ==> final(self).live(r, i),
            res == Ok::<bool, StoreError>(true) ==> final(self).log@ == old(self).log@ + key@ + val@,
            res == Ok::<bool, StoreError>(true) && old(self).lookup(key@) is None ==> final(self).entries().len() == old(self).entries().len() + 1,
            res == Ok::<bool, StoreError>(true) ==> exists|i: int|
                {
                    &&& 0 <= i < WIDTH
                    &&& #[trigger] final(self).holds(row_of(ph.0), i, key@)
                    &&& (old(self).live(row_of(ph.0), i) ==> old(self).holds(row_of(ph.0), i, key@))
                    &&& final(self).desc_at(row_of(ph.0), i) == (Descriptor {
                        offset: old(self).log@.len() as u32,
                        klen: key@.len() as u16,
                        vlen: val@.len() as u16,
                    })
                    &&& forall|q: int, j: int|
                        0 <= q < ROWS && 0 <= j < WIDTH && !(q == row_of(ph.0) && j == i)
                            ==> #[trigger] final(self).slot_same(old(self), q, j)
                },
    {
        if self.log.len() > u32::MAX as usize {
            return Err(StoreError::LogFull);
        }
        let r = ph.row();
        let sign = ph.sign();
        let mut i: usize = 0;
        while i < WIDTH
            invariant
                self.wf(),
                *self == *old(self),
                ph.0 == sip_of(key@),
                r == row_of(ph.0),
                r < ROWS,
                sign == sign_of(ph.0),
                i <= WIDTH,
                self.log@.len() <= u32::MAX,
                self.start <= shard_of(ph.0) < self.end,
                key@.len() <= u16::MAX,
                val@.len() <= u16::MAX,
                forall|j: int| 0 <= j < i ==> !#[trigger] self.holds(r as int, j, key@),
            decreases WIDTH - i,
        {
            assert(self.slot_wf(r as int, i as int));
            assert(self.header.rows@[r as int].wf());
            if self.header.rows[r].signs[i] == sign {
                let (k, _) = self.read(self.header.rows[r].descriptors[i]);
                if same_bytes(k.as_slice(), key) {
                    proof {
                        self.lemma_lookup_at(r as int, i as int, key@);
                    }
                    self.place(r, i, sign, key, val);
                    return Ok(true);
                }
            }
            i += 1;
        }
        assert(!exists|j: int| self.holds(r as int, j, key@));
        assert(old(self).lookup(key@) is None);
        let mut i: usize = 0;
        while i < WIDTH
            invariant
                self.wf(),
                *self == *old(self),
                ph.0 == sip_of(key@),
                r == row_of(ph.0),
                r < ROWS,
                sign == sign_of(ph.0),
                i <= WIDTH,
                self.log@.len() <= u32::MAX,
                self.start <= shard_of(ph.0) < self.end,
                key@.len() <= u16::MAX,
                val@.len() <= u16::MAX,
                forall|j: int| 0 <= j < WIDTH ==> !#[trigger] self.holds(r as int, j, key@),
                forall|j: int| 0 <= j < i ==> #[trigger] self.live(r as int, j),
            decreases WIDTH - i,
        {
            assert(self.header.rows@[r as int].wf());
            if self.header.rows[r].signs[i] == EMPTY_SIGN {
                assert(old(self).has_empty(r as int)) by {
                    assert(!old(self).live(r as int, i as int));
                }
                self.place(r, i, sign, key, val);
                proof {
                    old(self).lemma_one_more_live(self, r as int, i as int);
                }
                return Ok(true);
            }
            i += 1;
        }
        Ok(false)
    }

    /// Clears the slot that holds `key`, whose hash is `ph`; returns whether
    /// there was one.
    pub fn remove(&mut self, ph: PartedHash, key: &[u8]) -> (found: bool)
        requires
            old(self).wf(),
            ph.0 == sip_of(key@),
        ensures
            final(self).wf(),
            final(self).start == old(self).start,
            final(self).end == old(self).end,
            found == old(self).lookup(key@) is Some,
            forall|k: Seq<u8>|
                #[trigger] final(self).lookup(k) == if k == key@ {
                    None
                } else {
                    old(self).lookup(k)
                },
            forall|r: int, i: int|
                0 <= r < ROWS && 0 <= i < WIDTH && #[trigger] final(self).live(r, i) ==> old(self).live(r, i),
            !found ==> *final(self) == *old(self),
            found ==> final(self).entries().len() + 1 == old(self).entries().len(),
            final(self).log == old(self).log,
            found ==> exists|i: int|
                {
                    &&& #[trigger] old(self).holds(row_of(ph.0), i, key@)
                    &&& final(self).sign_at(row_of(ph.0), i) == EMPTY_SIGN
                    &&& final(self).desc_at(row_of(ph.0), i) == old(self).desc_at(row_of(ph.0), i)
                    &&& forall|q: int, j: int|
                        0 <= q < ROWS && 0 <= j < WIDTH && !(q == row_of(ph.0) && j == i)
                            ==> #[trigger] final(self).slot_same(old(self), q, j)
                },
    {
        let r = ph.row();
        let sign = ph.sign();
        let mut i: usize = 0;
        while i < WIDTH
            invariant
                self.wf(),
                *self == *old(self),
                ph.0 == sip_of(key@),
                r == row_of(ph.0),
                sign == sign_of(ph.0),
                i <= WIDTH,
                forall|j: int| 0 <= j < i ==> !#[trigger] self.holds(r as int, j, key@),
            decreases WIDTH - i,
        {
            assert(self.slot_wf(r as int, i as int));
            assert(self.header.rows@[r as int].wf());
            if self.header.rows[r].signs[i] == sign {
                let (k, _) = self.read(self.header.rows[r].descriptors[i]);
                if same_bytes(k.as_slice(), key) {
                    let ghost pre = *self;
                    proof {
                        pre.lemma_lookup_at(r as int, i as int, key@);
                    }
                    self.header.rows[r].signs[i] = EMPTY_SIGN;
                    proof {
                        let post = *self;
                        let ri = r as int;
                        let ii = i as int;
                        assert(post.header.wf()) by {
                            assert forall|q: int| 0 <= q < ROWS implies #[trigger] post.header.rows@[q].wf() by {
                                assert(pre.header.rows@[q].wf());
                            }
                        }
                        assert forall|q: int, j: int| 0 <= q < ROWS && 0 <= j < WIDTH implies #[trigger] post.slot_wf(
                            q,
                            j,
                        ) by {
                            assert(pre.slot_wf(q, j));
                        }
                        assert forall|q: int, j1: int, j2: int|
                            0 <= q < ROWS && 0 <= j1 < WIDTH && 0 <= j2 < WIDTH && post.live(q, j1)
                                && post.live(q, j2) && #[trigger] post.key_at(q, j1)
                                == #[trigger] post.key_at(q, j2) implies j1 == j2 by {
                            assert(pre.key_at(q, j1) == pre.key_at(q, j2));
                        }
                        assert forall|k: Seq<u8>|
                            #[trigger] post.lookup(k) == if k == key@ {
                                None
                            } else {
                                pre.lookup(k)
                            } by {
                            let rk = row_of(sip_of(k));
                            if k == key@ {
                                assert forall|j: int| !post.holds(rk, j, k) by {
                                    if post.holds(rk, j, k) {
                                        assert(pre.key_at(ri, ii) == pre.key_at(ri, j));
                                    }
                                }
                            } else {
                                assert forall|j: int| 0 <= j < WIDTH implies #[trigger] pre.holds(rk, j, k)
                                    == post.holds(rk, j, k) && (pre.holds(rk, j, k) ==> pre.value_at(rk, j)
                                    == post.value_at(rk, j)) by {}
                                pre.lemma_lookup_frame(&post, k);
                            }
                        }
                    }
                    proof {
                        let post = *self;
                        assert forall|q: int, j: int| 0 <= q < ROWS && 0 <= j < WIDTH implies #[trigger] pre.live(q, j)
                            == (post.live(q, j) || (q == r && j == i)) by {}
                        post.lemma_one_more_live(&pre, r as int, i as int);
                    }
                    return true;
                }
            }
            i += 1;
        }
        false
    }

    /// Every live pair, row by row and slot by slot.
    pub fn iter(&self) -> (out: Vec<KV>)
        requires
            self.wf(),
        ensures
            kv_view(out@) == self.entries(),
    {
        let mut out: Vec<KV> = Vec::new();
        let mut r: usize = 0;
        while r < ROWS
            invariant
                self.wf(),
                r <= ROWS,
                kv_view(out@) == self.rows_entries(r as int),
            decreases ROWS - r,
        {
            let row = self.header_row(r);
            let mut i: usize = 0;
            while i < WIDTH
                invariant
                    self.wf(),
                    r < ROWS,
                    *row == self.header.rows@[r as int],
                    i <= WIDTH,
                    kv_view(out@) == self.rows_entries(r as int) + self.row_entries(r as int, i as int),
                decreases WIDTH - i,
            {
                assert(self.slot_wf(r as int, i as int));
                assert(self.header.rows@[r as int].wf());
                if row.signs[i] != EMPTY_SIGN {
                    let kv = self.read(row.descriptors[i]);
                    let ghost before = out@;
                    out.push(kv);
                    assert(kv_view(out@) =~= kv_view(before).push((kv.0@, kv.1@)));
                }
                assert(self.rows_entries(r as int) + self.row_entries(r as int, i + 1) =~= self.rows_entries(r as int) + self.row_entries(r as int, i as int) + self.slot_entries(r as int, i as int));
                i += 1;
            }
            r += 1;
        }
        out
    }
}

/// The byte strings of an optional buffer.
pub open spec fn opt_view(o: Option<Buf>) -> Option<Seq<u8>> {
    match o {
        Some(v) => Some(v@),
        None => None,
    }
}

/// The byte strings of a sequence of pairs.
pub open spec fn kv_view(s: Seq<KV>) -> Seq<(Seq<u8>, Seq<u8>)> {
    s.map_values(|p: KV| (p.0@, p.1@))
}

} // verus!
