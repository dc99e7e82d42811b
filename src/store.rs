use crate::parted_hash::{lemma_shard_bound, row_of, shard_of, sip_of, PartedHash, MAX_SHARD, ROWS, WIDTH};
use crate::shard::{kv_view, opt_view, Buf, ShardFile, StoreError, EMPTY_SIGN, KV};
use vstd::prelude::*;

verus! {

/// The live pairs of a list of shards, shard after shard.
pub open spec fn shards_entries(s: Seq<ShardFile>) -> Seq<(Seq<u8>, Seq<u8>)>
    decreases s.len(),
{
    if s.len() == 0 {
        seq![]
    } else {
        shards_entries(s.drop_last()) + s.last().entries()
    }
}

/// Lists of shards whose shards hold as many pairs, one for one, hold as
/// many pairs in all.
proof fn lemma_shards_count(a: Seq<ShardFile>, b: Seq<ShardFile>)
    requires
        a.len() == b.len(),
        forall|j: int| 0 <= j < a.len() ==> (#[trigger] a[j]).entries().len() == b[j].entries().len(),
    ensures
        shards_entries(a).len() == shards_entries(b).len(),
    decreases a.len(),
{
    if a.len() > 0 {
        lemma_shards_count(a.drop_last(), b.drop_last());
        assert(a[a.len() - 1].entries().len() == b[b.len() - 1].entries().len());
    }
}

/// The pairs of two lists of shards, one after the other.
proof fn lemma_shards_entries_append(a: Seq<ShardFile>, b: Seq<ShardFile>)
    ensures
        shards_entries(a + b).len() == shards_entries(a).len() + shards_entries(b).len(),
    decreases b.len(),
{
    if b.len() == 0 {
        assert(a + b =~= a);
    } else {
        lemma_shards_entries_append(a, b.drop_last());
        assert((a + b).drop_last() =~= a + b.drop_last());
        assert((a + b).last() == b.last());
    }
}

proof fn lemma_shards_entries_single(x: ShardFile)
    ensures
        shards_entries(seq![x]).len() == x.entries().len(),
{
    assert(seq![x].drop_last() =~= Seq::<ShardFile>::empty());
    assert(seq![x].last() == x);
    assert(shards_entries(seq![x].drop_last()) =~= Seq::<(Seq<u8>, Seq<u8>)>::empty());
    assert(shards_entries(seq![x]) =~= x.entries());
}

/// Replacing one shard changes the number of pairs by the difference of the
/// two shards' counts.
proof fn lemma_replace_count(s: Seq<ShardFile>, j: int, x: ShardFile)
    requires
        0 <= j < s.len(),
    ensures
        shards_entries(s.update(j, x)).len() + s[j].entries().len() == shards_entries(s).len()
            + x.entries().len(),
{
    let a = s.take(j);
    let c = s.skip(j + 1);
    assert(s =~= a + seq![s[j]] + c);
    assert(s.update(j, x) =~= a + seq![x] + c);
    lemma_shards_entries_append(a + seq![s[j]], c);
    lemma_shards_entries_append(a, seq![s[j]]);
    lemma_shards_entries_append(a + seq![x], c);
    lemma_shards_entries_append(a, seq![x]);
    lemma_shards_entries_single(s[j]);
    lemma_shards_entries_single(x);
}

/// Replacing shard `j` of `s` by the two shards `t[j]` and `t[j + 1]`
/// changes the number of pairs by the difference of the counts.
proof fn lemma_split_count(s: Seq<ShardFile>, t: Seq<ShardFile>, j: int)
    requires
        0 <= j < s.len(),
        t.len() == s.len() + 1,
        forall|q: int| 0 <= q < j ==> #[trigger] t[q] == s[q],
        forall|q: int| j + 1 < q < t.len() ==> #[trigger] t[q] == s[q - 1],
    ensures
        shards_entries(t).len() + s[j].entries().len() == shards_entries(s).len() + t[j].entries().len()
            + t[j + 1].entries().len(),
{
    let a = s.take(j);
    let c = s.skip(j + 1);
    assert(s =~= a + seq![s[j]] + c);
    assert(t =~= a + (seq![t[j]] + seq![t[j + 1]]) + c);
    lemma_shards_entries_append(a + seq![s[j]], c);
    lemma_shards_entries_append(a, seq![s[j]]);
    lemma_shards_entries_append(a + (seq![t[j]] + seq![t[j + 1]]), c);
    lemma_shards_entries_append(a, seq![t[j]] + seq![t[j + 1]]);
    lemma_shards_entries_append(seq![t[j]], seq![t[j + 1]]);
    lemma_shards_entries_single(s[j]);
    lemma_shards_entries_single(t[j]);
    lemma_shards_entries_single(t[j + 1]);
}

/// `w` is a power of two.
pub open spec fn is_pow2(w: int) -> bool
    decreases w,
{
    if w <= 0 {
        false
    } else if w == 1 {
        true
    } else {
        w % 2 == 0 && is_pow2(w / 2)
    }
}

/// The largest log a half receives in a split: every slot of a shard
/// copied once, with a key and a value of at most `u16::MAX` bytes each.
pub const HALF_LOG_MAX: u64 = 4294901760;

/// The copied slot `(r, i)` is the first slot of `o` to hold its key.
proof fn lemma_not_moved(o: ShardFile, r: int, i: int)
    requires
        o.wf(),
        0 <= r < ROWS,
        0 <= i < WIDTH,
        o.live(r, i),
    ensures
        !moved(o, o.key_at(r, i), r, i),
{
    let k = o.key_at(r, i);
    assert(o.slot_wf(r, i));
    if moved(o, k, r, i) {
        let j = choose|j: int| #[trigger] o.holds(row_of(sip_of(k)), j, k) && before(row_of(sip_of(k)), j, r, i);
        assert(o.key_at(r, i) == o.key_at(r, j));
    }
}

/// Whether slot `(q, j)` comes before slot `(r, i)` in row-major order.
pub open spec fn before(q: int, j: int, r: int, i: int) -> bool {
    q < r || (q == r && j < i)
}

/// A key-value store: shards ordered by range, whose ranges partition the
/// shard indices `[0, MAX_SHARD)`.
pub struct Store {
    pub shards: Vec<ShardFile>,
}

impl Store {
    /// Shard `j` is responsible for shard index `s`.
    pub open spec fn owns(&self, j: int, s: int) -> bool {
        &&& 0 <= j < self.shards@.len()
        &&& self.shards@[j].start <= s < self.shards@[j].end
    }

    pub open spec fn covered(&self, s: int) -> bool {
        exists|j: int| self.owns(j, s)
    }

    pub open spec fn wf(&self) -> bool {
        &&& self.shards@.len() >= 1
        &&& forall|j: int| 0 <= j < self.shards@.len() ==> (#[trigger] self.shards@[j]).wf()
        &&& forall|j1: int, j2: int|
            0 <= j1 < j2 < self.shards@.len() ==> #[trigger] self.shards@[j1].end
                <= #[trigger] self.shards@[j2].start
        &&& forall|s: int| 0 <= s < MAX_SHARD ==> #[trigger] self.covered(s)
        &&& forall|j: int| 0 <= j < self.shards@.len() ==> is_pow2(#[trigger] self.width(j))
    }

    /// Width of the range of shard `j`.
    pub open spec fn width(&self, j: int) -> int {
        self.shards@[j].end - self.shards@[j].start
    }

    /// The shard responsible for shard index `s`.
    pub open spec fn owner(&self, s: int) -> int {
        choose|j: int| self.owns(j, s)
    }

    /// The value stored under `k`, if any.
    pub open spec fn lookup(&self, k: Seq<u8>) -> Option<Seq<u8>> {
        self.shards@[self.owner(shard_of(sip_of(k)) as int)].lookup(k)
    }

    /// Every live pair, shard by shard.
    pub open spec fn entries(&self) -> Seq<(Seq<u8>, Seq<u8>)> {
        shards_entries(self.shards@)
    }

    /// Width of the range of the shard responsible for shard index `s`.
    pub open spec fn owner_width(&self, s: int) -> int {
        self.shards@[self.owner(s)].end - self.shards@[self.owner(s)].start
    }

    /// In a well-formed store, one shard only is responsible for each
    /// shard index.
    pub proof fn lemma_owner(&self, j: int, s: int)
        requires
            self.wf(),
            self.owns(j, s),
        ensures
            self.owner(s) == j,
    {
        let o = self.owner(s);
        assert(self.owns(o, s));
        if o < j {
            assert(self.shards@[o].end <= self.shards@[j].start);
        } else if o > j {
            assert(self.shards@[j].end <= self.shards@[o].start);
        }
    }

    /// In a well-formed store the shards' ranges are non-empty, ascending
    /// and contiguous, and together cover `[0, MAX_SHARD)` exactly.
    pub proof fn lemma_ranges_partition(&self)
        requires
            self.wf(),
        ensures
            self.shards@[0].start == 0,
            self.shards@.last().end == MAX_SHARD,
            forall|j: int|
                0 <= j < self.shards@.len() ==> #[trigger] self.shards@[j].start
                    < self.shards@[j].end,
            forall|j: int|
                0 <= j < self.shards@.len() - 1 ==> #[trigger] self.shards@[j].end
                    == self.shards@[j + 1].start,
    {
        let n = self.shards@.len();
        assert(self.shards@[0].wf());
        assert(self.covered(0));
        let o = choose|j: int| self.owns(j, 0);
        if o > 0 {
            assert(self.shards@[0].end <= self.shards@[o].start);
        }
        assert(self.shards@[n - 1].wf());
        let last = MAX_SHARD - 1;
        assert(self.covered(last));
        let o = choose|j: int| self.owns(j, last);
        if o < n - 1 {
            assert(self.shards@[o].end <= self.shards@[n - 1].start);
        }
        assert forall|j: int| 0 <= j < n implies #[trigger] self.shards@[j].start
            < self.shards@[j].end by {
            assert(self.shards@[j].wf());
        }
        assert forall|j: int| 0 <= j < n - 1 implies #[trigger] self.shards@[j].end
            == self.shards@[j + 1].start by {
            assert(self.shards@[j].wf());
            assert(self.shards@[j + 1].wf());
            assert(self.shards@[j].end <= self.shards@[j + 1].start);
            let e = self.shards@[j].end as int;
            if e < MAX_SHARD {
                assert(self.covered(e));
                let o = choose|q: int| self.owns(q, e);
                if o < j {
                    assert(self.shards@[o].end <= self.shards@[j].start);
                } else if o > j + 1 {
                    assert(self.shards@[j + 1].end <= self.shards@[o].start);
                }
            } else {
                assert(self.shards@[j + 1].end <= MAX_SHARD);
            }
        }
    }

    proof fn lemma_prefix_entries(&self, n: int)
        requires
            self.wf(),
            0 <= n <= self.shards@.len(),
        ensures
            forall|p: int|
                0 <= p < shards_entries(self.shards@.take(n)).len() ==> {
                    let e = #[trigger] shards_entries(self.shards@.take(n))[p];
                    &&& self.owner(shard_of(sip_of(e.0)) as int) < n
                    &&& self.lookup(e.0) == Some(e.1)
                },
            ShardFile::distinct_keys(shards_entries(self.shards@.take(n))),
            forall|k: Seq<u8>|
                #[trigger] self.lookup(k) is Some && 0 <= self.owner(shard_of(sip_of(k)) as int) < n
                    ==> exists|p: int|
                    0 <= p < shards_entries(self.shards@.take(n)).len() && shards_entries(
                        self.shards@.take(n),
                    )[p] == (k, self.lookup(k)->Some_0),
        decreases n,
    {
        if n == 0 {
            assert(self.shards@.take(0) =~= Seq::<ShardFile>::empty());
        } else {
            self.lemma_prefix_entries(n - 1);
            let t = self.shards@.take(n);
            assert(t.drop_last() =~= self.shards@.take(n - 1));
            assert(t.last() == self.shards@[n - 1]);
            let sh = self.shards@[n - 1];
            assert(sh.wf());
            sh.lemma_entries_lookup();
            let a = shards_entries(self.shards@.take(n - 1));
            let b = sh.entries();
            let es = shards_entries(t);
            assert(es == a + b);
            assert forall|q: int| 0 <= q < b.len() implies {
                let e = #[trigger] b[q];
                &&& self.owner(shard_of(sip_of(e.0)) as int) == n - 1
                &&& self.lookup(e.0) == Some(e.1)
            } by {
                let e = b[q];
                assert(sh.lookup(e.0) == Some(e.1));
                assert(self.owns(n - 1, shard_of(sip_of(e.0)) as int));
                self.lemma_owner(n - 1, shard_of(sip_of(e.0)) as int);
            }
            assert forall|p: int| 0 <= p < es.len() implies {
                let e = #[trigger] es[p];
                &&& self.owner(shard_of(sip_of(e.0)) as int) < n
                &&& self.lookup(e.0) == Some(e.1)
            } by {
                if p < a.len() {
                    assert(es[p] == a[p]);
                } else {
                    assert(es[p] == b[p - a.len()]);
                }
            }
            assert forall|p1: int, p2: int|
                0 <= p1 < es.len() && 0 <= p2 < es.len() && p1 != p2 implies #[trigger] es[p1].0
                != #[trigger] es[p2].0 by {
                if p1 < a.len() && p2 < a.len() {
                    assert(es[p1] == a[p1] && es[p2] == a[p2]);
                } else if p1 >= a.len() && p2 >= a.len() {
                    assert(es[p1] == b[p1 - a.len()] && es[p2] == b[p2 - a.len()]);
                } else if p1 < a.len() {
                    assert(es[p1] == a[p1]);
                    assert(es[p2] == b[p2 - a.len()]);
                } else {
                    assert(es[p2] == a[p2]);
                    assert(es[p1] == b[p1 - a.len()]);
                }
            }
            assert forall|k: Seq<u8>|
                #[trigger] self.lookup(k) is Some && 0 <= self.owner(shard_of(sip_of(k)) as int) < n
                    implies exists|p: int| 0 <= p < es.len() && es[p] == (k, self.lookup(k)->Some_0) by {
                if self.owner(shard_of(sip_of(k)) as int) < n - 1 {
                    let p = choose|p: int| 0 <= p < a.len() && a[p] == (k, self.lookup(k)->Some_0);
                    assert(es[p] == a[p]);
                } else {
                    assert(sh.lookup(k) is Some);
                    let q = choose|q: int| 0 <= q < b.len() && b[q] == (k, sh.lookup(k)->Some_0);
                    assert(es[a.len() + q] == b[q]);
                }
            }
        }
    }

    /// The pairs `iter` returns are exactly what `lookup` gives: each pair's
    /// value is the one looked up under its key, no key comes twice, and
    /// every stored key comes.
    pub proof fn lemma_entries_lookup(&self)
        requires
            self.wf(),
        ensures
            forall|p: int|
                0 <= p < self.entries().len() ==> self.lookup(#[trigger] self.entries()[p].0) == Some(
                    self.entries()[p].1,
                ),
            ShardFile::distinct_keys(self.entries()),
            forall|k: Seq<u8>| #[trigger] self.lookup(k) is Some ==> exists|p: int|
                0 <= p < self.entries().len() && self.entries()[p] == (k, self.lookup(k)->Some_0),
    {
        let n = self.shards@.len() as int;
        self.lemma_prefix_entries(n);
        assert(self.shards@.take(n) =~= self.shards@);
        let es = self.entries();
        assert forall|p: int| 0 <= p < es.len() implies self.lookup(#[trigger] es[p].0) == Some(es[p].1) by {
            let e = es[p];
        }
        assert forall|k: Seq<u8>| #[trigger] self.lookup(k) is Some implies exists|p: int|
            0 <= p < es.len() && es[p] == (k, self.lookup(k)->Some_0) by {
            let s = shard_of(sip_of(k)) as int;
            lemma_shard_bound(sip_of(k));
            assert(self.covered(s));
            assert(self.owns(self.owner(s), s));
        }
    }

    /// An empty store: one shard responsible for every shard index.
    pub fn open() -> (st: Store)
        ensures
            st.wf(),
            st.shards@.len() == 1,
            forall|k: Seq<u8>| #[trigger] st.lookup(k) is None,
            st.entries() == Seq::<(Seq<u8>, Seq<u8>)>::empty(),
    {
        let first = ShardFile::open(0, MAX_SHARD);
        let mut shards: Vec<ShardFile> = Vec::new();
        shards.push(first);
        let st = Store { shards };
        assert forall|s: int| 0 <= s < MAX_SHARD implies #[trigger] st.covered(s) by {
            assert(st.owns(0, s));
        }
        assert(is_pow2(st.width(0))) by {
            reveal_with_fuel(is_pow2, 18);
        }
        assert(st.wf());
        assert forall|k: Seq<u8>| #[trigger] st.lookup(k) is None by {
            st.lemma_owner(0, shard_of(sip_of(k)) as int);
            assert(st.shards@[0].lookup(k) is None);
        }
        assert(st.shards@.drop_last() =~= Seq::<ShardFile>::empty());
        assert(shards_entries(st.shards@.drop_last()) =~= Seq::<(Seq<u8>, Seq<u8>)>::empty());
        assert(st.entries() =~= Seq::<(Seq<u8>, Seq<u8>)>::empty());
        st
    }

    /// The index of the shard responsible for shard index `s`: the first
    /// whose range ends above `s`.
    pub fn shard_for(&self, s: u32) -> (j: usize)
        requires
            self.wf(),
            s < MAX_SHARD,
        ensures
            j == self.owner(s as int),
            self.owns(j as int, s as int),
    {
        let mut j: usize = 0;
        while j < self.shards.len()
            invariant
                self.wf(),
                s < MAX_SHARD,
                j <= self.shards@.len(),
                forall|q: int| 0 <= q < j ==> #[trigger] self.shards@[q].end <= s,
            decreases self.shards@.len() - j,
        {
            if s < self.shards[j].end {
                proof {
                    assert(self.covered(s as int));
                    let o = choose|q: int| self.owns(q, s as int);
                    if o < j {
                        assert(self.shards@[o].end <= s);
                    } else if o > j {
                        assert(self.shards@[j as int].end <= self.shards@[o].start);
                    }
                    self.lemma_owner(j as int, s as int);
                }
                return j;
            }
            j += 1;
        }
        proof {
            assert(self.covered(s as int));
            let o = choose|q: int| self.owns(q, s as int);
            assert(self.shards@[o].end <= s);
        }
        0
    }

    /// The value stored under `key`.
    pub fn get(&self, key: &[u8]) -> (v: Option<Buf>)
        requires
            self.wf(),
        ensures
            opt_view(v) == self.lookup(key@),
    {
        let ph = PartedHash::new(key);
        let j = self.shard_for(ph.shard());
        assert(self.shards@[j as int].wf());
        self.shards[j].get(ph, key)
    }

    /// The same store after shard `j` is replaced by a shard with the same
    /// range looks keys up there, and elsewhere as before.
    proof fn lemma_replace_shard(&self, other: &Store, j: int)
        requires
            self.wf(),
            0 <= j < self.shards@.len(),
            other.shards@.len() == self.shards@.len(),
            other.shards@[j].wf(),
            other.shards@[j].start == self.shards@[j].start,
            other.shards@[j].end == self.shards@[j].end,
            forall|q: int| 0 <= q < self.shards@.len() && q != j ==> #[trigger] other.shards@[q] == self.shards@[q],
        ensures
            other.wf(),
            forall|k: Seq<u8>|
                #[trigger] other.lookup(k) == if self.owner(shard_of(sip_of(k)) as int) == j {
                    other.shards@[j].lookup(k)
                } else {
                    self.lookup(k)
                },
    {
        assert forall|q: int| 0 <= q < other.shards@.len() implies (#[trigger] other.shards@[q]).wf() by {
            if q != j {
                assert(self.shards@[q].wf());
            }
        }
        assert forall|q1: int, q2: int| 0 <= q1 < q2 < other.shards@.len() implies #[trigger] other.shards@[q1].end
            <= #[trigger] other.shards@[q2].start by {
            assert(self.shards@[q1].end <= self.shards@[q2].start);
        }
        assert forall|s: int| 0 <= s < MAX_SHARD implies #[trigger] other.covered(s) by {
            assert(self.covered(s));
            let o = choose|q: int| self.owns(q, s);
            assert(other.owns(o, s));
        }
        assert forall|q: int| 0 <= q < other.shards@.len() implies is_pow2(#[trigger] other.width(q)) by {
            assert(is_pow2(self.width(q)));
        }
        assert forall|k: Seq<u8>|
            #[trigger] other.lookup(k) == if self.owner(shard_of(sip_of(k)) as int) == j {
                other.shards@[j].lookup(k)
            } else {
                self.lookup(k)
            } by {
            let s = shard_of(sip_of(k)) as int;
            assert(self.covered(s));
            let o = self.owner(s);
            assert(self.owns(o, s));
            assert(other.owns(o, s));
            other.lemma_owner(o, s);
        }
    }

    /// Removes `key`; returns whether it was there.
    pub fn remove(&mut self, key: &[u8]) -> (found: bool)
        requires
            old(self).wf(),
        ensures
            final(self).wf(),
            found == old(self).lookup(key@) is Some,
            forall|k: Seq<u8>|
                #[trigger] final(self).lookup(k) == if k == key@ {
                    None
                } else {
                    old(self).lookup(k)
                },
            touches_only(*old(self), *final(self), key@),
            final(self).shards@.len() == old(self).shards@.len(),
            forall|q: int|
                0 <= q < final(self).shards@.len() ==> #[trigger] final(self).shards@[q].start == old(self).shards@[q].start
                    && final(self).shards@[q].end == old(self).shards@[q].end,
            forall|q: int|
                0 <= q < final(self).shards@.len() && q != old(self).owner(shard_of(sip_of(key@)) as int)
                    ==> #[trigger] final(self).shards@[q] == old(self).shards@[q],
            !found ==> final(self).shards@ == old(self).shards@,
            found ==> final(self).entries().len() + 1 == old(self).entries().len(),
    {
        let ph = PartedHash::new(key);
        let j = self.shard_for(ph.shard());
        assert(self.shards@[j as int].wf());
        let found = self.shards[j].remove(ph, key);
        proof {
            assert(self.shards@ =~= old(self).shards@.update(j as int, self.shards@[j as int]));
            if found {
                lemma_replace_count(old(self).shards@, j as int, self.shards@[j as int]);
            } else {
                assert(self.shards@ =~= old(self).shards@);
            }
            old(self).lemma_replace_shard(self, j as int);
            assert forall|k: Seq<u8>|
                #[trigger] self.lookup(k) == if k == key@ {
                    None
                } else {
                    old(self).lookup(k)
                } by {
                if old(self).owner(shard_of(sip_of(k)) as int) == j {
                    assert(self.shards@[j as int].lookup(k) == if k == key@ {
                        None
                    } else {
                        old(self).shards@[j as int].lookup(k)
                    });
                }
            }
        }
        found
    }

    /// The shard responsible for `k`.
    pub open spec fn owner_of(&self, k: Seq<u8>) -> ShardFile {
        self.shards@[self.owner(shard_of(sip_of(k)) as int)]
    }

    /// Stores `val` under `key`. When the key is new and its row is full in
    /// the shard that owns it, that shard is split in two and the write is
    /// tried again, until it succeeds or the owning shard covers a single
    /// shard index.
    pub fn set(&mut self, key: &[u8], val: &[u8]) -> (res: Result<bool, StoreError>)
        requires
            old(self).wf(),
        ensures
            final(self).wf(),
            res is Ok ==> res == Ok::<bool, StoreError>(true),
            (res == Err::<bool, StoreError>(StoreError::KeyTooLong)) == (key@.len() > u16::MAX),
            (res == Err::<bool, StoreError>(StoreError::ValueTooLong)) == (key@.len() <= u16::MAX
                && val@.len() > u16::MAX),
            key@.len() > u16::MAX || val@.len() > u16::MAX ==> *final(self) == *old(self),
            (res == Err::<bool, StoreError>(StoreError::LogFull)) == (key@.len() <= u16::MAX
                && val@.len() <= u16::MAX && old(self).owner_of(key@).log@.len() > u32::MAX),
            key@.len() <= u16::MAX && val@.len() <= u16::MAX && old(self).owner_of(key@).log@.len()
                <= u32::MAX ==> res is Ok || res == Err::<bool, StoreError>(StoreError::RowFull),
            key@.len() <= u16::MAX && val@.len() <= u16::MAX && old(self).owner_of(key@).log@.len()
                <= u32::MAX && old(self).lookup(key@) is Some ==> res == Ok::<bool, StoreError>(true),
            res is Ok ==> forall|k: Seq<u8>|
                #[trigger] final(self).lookup(k) == if k == key@ {
                    Some(val@)
                } else {
                    old(self).lookup(k)
                },
            res is Err ==> forall|k: Seq<u8>| #[trigger] final(self).lookup(k) == old(self).lookup(k),
            touches_only(*old(self), *final(self), key@),
            res is Ok && old(self).lookup(key@) is Some ==> final(self).entries().len() == old(self).entries().len(),
            res is Ok && old(self).lookup(key@) is None ==> final(self).entries().len() == old(self).entries().len() + 1,
            res is Err ==> final(self).entries().len() == old(self).entries().len(),
            final(self).shards@.len() >= old(self).shards@.len(),
            res is Ok && old(self).lookup(key@) is None && !old(self).owner_of(key@).has_empty(
                row_of(sip_of(key@)),
            ) ==> final(self).shards@.len() > old(self).shards@.len(),
            res == Err::<bool, StoreError>(StoreError::RowFull) ==> {
                let o = final(self).owner_of(key@);
                &&& o.end - o.start == 1
                &&& !o.has_empty(row_of(sip_of(key@)))
                &&& final(self).lookup(key@) is None
            },
    {
        if key.len() > u16::MAX as usize {
            return Err(StoreError::KeyTooLong);
        }
        if val.len() > u16::MAX as usize {
            return Err(StoreError::ValueTooLong);
        }
        let ph = PartedHash::new(key);
        let s = ph.shard();
        let ghost mut split_done = false;
        loop
            invariant
                self.wf(),
                old(self).wf(),
                ph.0 == sip_of(key@),
                s == shard_of(ph.0),
                s < MAX_SHARD,
                key@.len() <= u16::MAX,
                val@.len() <= u16::MAX,
                forall|k: Seq<u8>| #[trigger] self.lookup(k) == old(self).lookup(k),
                self.entries().len() == old(self).entries().len(),
                !split_done ==> self.shards@ == old(self).shards@,
                split_done ==> {
                    &&& self.shards@.len() > old(self).shards@.len()
                    &&& self.owner_of(key@).log@.len() <= u32::MAX
                    &&& old(self).owner_of(key@).log@.len() <= u32::MAX
                    &&& old(self).lookup(key@) is None
                },
            decreases self.owner_width(s as int),
        {
            let j = self.shard_for(s);
            let ghost pre = *self;
            assert(pre.shards@[j as int].wf());
            proof {
                if !split_done {
                    assert(old(self).owns(j as int, s as int));
                    old(self).lemma_owner(j as int, s as int);
                }
            }
            let placed = self.shards[j].set(ph, key, val);
            match placed {
                Err(e) => {
                    proof {
                        assert(self.shards@ =~= pre.shards@);
                        pre.lemma_replace_shard(self, j as int);
                    }
                    return Err(e);
                },
                Ok(true) => {
                    proof {
                        pre.lemma_replace_shard(self, j as int);
                        assert(self.shards@ =~= pre.shards@.update(j as int, self.shards@[j as int]));
                        if old(self).lookup(key@) is Some {
                            pre.shards@[j as int].lemma_same_live_same_count(&self.shards@[j as int]);
                            lemma_shards_count(pre.shards@, self.shards@);
                        } else {
                            lemma_replace_count(pre.shards@, j as int, self.shards@[j as int]);
                        }
                    }
                    return Ok(true);
                },
                Ok(false) => {
                    assert(self.shards@ =~= pre.shards@);
                    proof {
                        pre.lemma_replace_shard(self, j as int);
                        self.lemma_owner(j as int, s as int);
                        assert(pre.lookup(key@) is None);
                        assert(old(self).lookup(key@) is None);
                        lemma_shards_count(pre.shards@, self.shards@);
                    }
                    if self.shards[j].end - self.shards[j].start < 2 {
                        return Err(StoreError::RowFull);
                    }
                    let ghost before_split = *self;
                    let _ = self.split(j);
                    proof {
                        let mid = (before_split.shards@[j as int].start + before_split.shards@[j as int].end) / 2;
                        if (s as int) < mid {
                            assert(self.owns(j as int, s as int));
                            self.lemma_owner(j as int, s as int);
                        } else {
                            assert(self.owns(j + 1, s as int));
                            self.lemma_owner(j + 1, s as int);
                        }
                        split_done = true;
                    }
                },
            }
        }
    }

    /// Every live pair, shard by shard in ascending range order.
    pub fn iter(&self) -> (out: Vec<KV>)
        requires
            self.wf(),
        ensures
            kv_view(out@) == self.entries(),
    {
        let mut out: Vec<KV> = Vec::new();
        let mut j: usize = 0;
        while j < self.shards.len()
            invariant
                self.wf(),
                j <= self.shards@.len(),
                kv_view(out@) == shards_entries(self.shards@.subrange(0, j as int)),
            decreases self.shards@.len() - j,
        {
            assert(self.shards@[j as int].wf());
            let mut part = self.shards[j].iter();
            let ghost before = out@;
            let ghost added = part@;
            out.append(&mut part);
            proof {
                let sub = self.shards@.subrange(0, j + 1);
                assert(sub.drop_last() =~= self.shards@.subrange(0, j as int));
                assert(kv_view(out@) =~= kv_view(before) + kv_view(added));
            }
            j += 1;
        }
        assert(self.shards@.subrange(0, self.shards@.len() as int) =~= self.shards@);
        out
    }

    /// Replaces shard `idx` by two shards, one for each half of its range,
    /// and writes every live pair of it anew into the half that owns its
    /// key. The other shards stay as they were, and so does every lookup.
    pub fn split(&mut self, idx: usize) -> (res: Result<(), StoreError>)
        requires
            old(self).wf(),
            idx < old(self).shards@.len(),
            old(self).width(idx as int) >= 2,
        ensures
            final(self).wf(),
            res is Ok,
            final(self).shards@.len() == old(self).shards@.len() + 1,
            forall|q: int| 0 <= q < idx ==> #[trigger] final(self).shards@[q] == old(self).shards@[q],
            forall|q: int|
                idx + 1 < q < final(self).shards@.len() ==> #[trigger] final(self).shards@[q] == old(self).shards@[q - 1],
            final(self).shards@[idx as int].start == old(self).shards@[idx as int].start,
            final(self).shards@[idx as int].end == (old(self).shards@[idx as int].start + old(self).shards@[idx as int].end) / 2,
            final(self).shards@[idx + 1].start == final(self).shards@[idx as int].end,
            final(self).shards@[idx + 1].end == old(self).shards@[idx as int].end,
            final(self).shards@[idx as int].log@.len() <= HALF_LOG_MAX,
            final(self).shards@[idx + 1].log@.len() <= HALF_LOG_MAX,
            forall|k: Seq<u8>| #[trigger] final(self).lookup(k) == old(self).lookup(k),
            final(self).entries().len() == old(self).entries().len(),
    {
        let ghost pre = *self;
        assert(pre.shards@[idx as int].wf());
        let start = self.shards[idx].start;
        let end = self.shards[idx].end;
        let mid = start + (end - start) / 2;
        proof {
            assert(is_pow2(pre.width(idx as int)));
            assert((end - start) % 2 == 0);
        }
        let mut bottom = ShardFile::open(start, mid);
        let mut top = ShardFile::open(mid, end);
        let old_shard = &self.shards[idx];
        let ghost o = *old_shard;
        proof {
            lemma_half_start(o, bottom, start as int, mid as int);
            lemma_half_start(o, top, mid as int, end as int);
        }
        let mut r: usize = 0;
        while r < ROWS
            invariant
                *self == pre,
                pre.wf(),
                o.wf(),
                *old_shard == o,
                o.start == start,
                o.end == end,
                start < mid < end,
                r <= ROWS,
                half_inv(o, bottom, start as int, mid as int, r as int, 0),
                half_inv(o, top, mid as int, end as int, r as int, 0),
                bottom.log@.len() + top.log@.len() <= 131070 * (r * 512),
                bottom.entries().len() + top.entries().len() == o.rows_entries(r as int).len(),
            decreases ROWS - r,
        {
            let mut i: usize = 0;
            assert(o.row_entries(r as int, 0) =~= Seq::<(Seq<u8>, Seq<u8>)>::empty());
            while i < WIDTH
                invariant
                    *self == pre,
                    pre.wf(),
                    o.wf(),
                    *old_shard == o,
                    o.start == start,
                    o.end == end,
                    start < mid < end,
                    r < ROWS,
                    i <= WIDTH,
                    half_inv(o, bottom, start as int, mid as int, r as int, i as int),
                    half_inv(o, top, mid as int, end as int, r as int, i as int),
                    bottom.log@.len() + top.log@.len() <= 131070 * (r * 512 + i),
                    bottom.entries().len() + top.entries().len() == o.rows_entries(r as int).len()
                        + o.row_entries(r as int, i as int).len(),
                decreases WIDTH - i,
            {
                assert(o.slot_wf(r as int, i as int));
                assert(o.header.rows@[r as int].wf());
                assert(o.row_entries(r as int, i + 1) == o.row_entries(r as int, i as int)
                    + o.slot_entries(r as int, i as int));
                if old_shard.header.rows[r].signs[i] != EMPTY_SIGN {
                    let (key, val) = old_shard.read(old_shard.header.rows[r].descriptors[i]);
                    let ph = PartedHash::new(key.as_slice());
                    assert(key@ == o.key_at(r as int, i as int));
                    proof {
                        lemma_not_moved(o, r as int, i as int);
                    }
                    if ph.shard() < mid {
                        let ghost h = bottom;
                        assert(!h.live(r as int, i as int));
                        assert(h.lookup(key@) is None);
                        let placed = bottom.set(ph, key.as_slice(), val.as_slice());
                        if placed.is_err() {
                            return Err(StoreError::LogFull);
                        }
                        proof {
                            lemma_half_insert(o, h, bottom, start as int, mid as int, r as int, i as int);
                            lemma_half_skip(o, top, mid as int, end as int, r as int, i as int);
                        }
                    } else {
                        let ghost h = top;
                        assert(!h.live(r as int, i as int));
                        assert(h.lookup(key@) is None);
                        let placed = top.set(ph, key.as_slice(), val.as_slice());
                        if placed.is_err() {
                            return Err(StoreError::LogFull);
                        }
                        proof {
                            lemma_half_insert(o, h, top, mid as int, end as int, r as int, i as int);
                            lemma_half_skip(o, bottom, start as int, mid as int, r as int, i as int);
                        }
                    }
                } else {
                    proof {
                        lemma_half_skip(o, bottom, start as int, mid as int, r as int, i as int);
                        lemma_half_skip(o, top, mid as int, end as int, r as int, i as int);
                    }
                }
                i += 1;
            }
            proof {
                lemma_half_row(o, bottom, start as int, mid as int, r as int);
                lemma_half_row(o, top, mid as int, end as int, r as int);
            }
            r += 1;
        }
        proof {
            lemma_half_done(o, bottom, start as int, mid as int);
            lemma_half_done(o, top, mid as int, end as int);
        }
        self.shards.remove(idx);
        self.shards.insert(idx, top);
        self.shards.insert(idx, bottom);
        proof {
            assert(self.width(idx as int) == pre.width(idx as int) / 2);
            assert(self.width(idx + 1) == pre.width(idx as int) / 2);
            pre.lemma_split_result(*self, idx as int, mid as int);
            lemma_split_count(pre.shards@, self.shards@, idx as int);
        }
        Ok(())
    }

    /// The list of shards with shard `idx` replaced by two halves that
    /// together hold what it held is a well-formed store with the same
    /// contents.
    proof fn lemma_split_result(&self, post: Store, idx: int, mid: int)
        requires
            self.wf(),
            0 <= idx < self.shards@.len(),
            post.shards@.len() == self.shards@.len() + 1,
            self.shards@[idx].start < mid < self.shards@[idx].end,
            forall|q: int| 0 <= q < idx ==> #[trigger] post.shards@[q] == self.shards@[q],
            forall|q: int| idx + 1 < q < post.shards@.len() ==> #[trigger] post.shards@[q] == self.shards@[q - 1],
            post.shards@[idx].wf(),
            post.shards@[idx + 1].wf(),
            post.shards@[idx].start == self.shards@[idx].start,
            post.shards@[idx].end == mid,
            post.shards@[idx + 1].start == mid,
            post.shards@[idx + 1].end == self.shards@[idx].end,
            is_pow2(post.width(idx)),
            is_pow2(post.width(idx + 1)),
            forall|k: Seq<u8>|
                #[trigger] post.shards@[idx].lookup(k) == if shard_of(sip_of(k)) < mid {
                    self.shards@[idx].lookup(k)
                } else {
                    None
                },
            forall|k: Seq<u8>|
                #[trigger] post.shards@[idx + 1].lookup(k) == if mid <= shard_of(sip_of(k)) {
                    self.shards@[idx].lookup(k)
                } else {
                    None
                },
        ensures
            post.wf(),
            forall|k: Seq<u8>| #[trigger] post.lookup(k) == self.lookup(k),
    {
        let n = self.shards@.len();
        let ns = post.shards@;
        assert forall|q: int| 0 <= q < ns.len() implies (#[trigger] ns[q]).wf() by {
            if q < idx {
                assert(self.shards@[q].wf());
            } else if q > idx + 1 {
                assert(self.shards@[q - 1].wf());
            }
        }
        assert forall|q1: int, q2: int| 0 <= q1 < q2 < ns.len() implies #[trigger] ns[q1].end
            <= #[trigger] ns[q2].start by {
            let p1 = if q1 <= idx { q1 } else if q1 == idx + 1 { idx } else { q1 - 1 };
            let p2 = if q2 <= idx { q2 } else if q2 == idx + 1 { idx } else { q2 - 1 };
            assert(ns[q1].end <= self.shards@[p1].end);
            assert(self.shards@[p2].start <= ns[q2].start);
            if p1 < p2 {
                assert(self.shards@[p1].end <= self.shards@[p2].start);
                assert(self.shards@[p2].wf());
            } else {
                assert(q1 == idx && q2 == idx + 1);
            }
        }
        assert forall|s: int| 0 <= s < MAX_SHARD implies #[trigger] post.covered(s) by {
            assert(self.covered(s));
            let o = choose|q: int| self.owns(q, s);
            if o < idx {
                assert(post.owns(o, s));
            } else if o > idx {
                assert(post.owns(o + 1, s));
            } else if s < mid {
                assert(post.owns(idx, s));
            } else {
                assert(post.owns(idx + 1, s));
            }
        }
        assert forall|q: int| 0 <= q < ns.len() implies is_pow2(#[trigger] post.width(q)) by {
            if q < idx {
                assert(is_pow2(self.width(q)));
            } else if q > idx + 1 {
                assert(is_pow2(self.width(q - 1)));
            }
        }
        assert(post.wf());
        assert forall|k: Seq<u8>| #[trigger] post.lookup(k) == self.lookup(k) by {
            let s = shard_of(sip_of(k)) as int;
            assert(self.covered(s));
            let o = self.owner(s);
            assert(self.owns(o, s));
            if o < idx {
                post.lemma_owner(o, s);
            } else if o > idx {
                post.lemma_owner(o + 1, s);
            } else if s < mid {
                post.lemma_owner(idx, s);
            } else {
                post.lemma_owner(idx + 1, s);
            }
        }
    }
}

/// Some slot of `o` before `(r, i)` holds `k`.
pub open spec fn moved(o: ShardFile, k: Seq<u8>, r: int, i: int) -> bool {
    exists|j: int| #[trigger] o.holds(row_of(sip_of(k)), j, k) && before(row_of(sip_of(k)), j, r, i)
}

/// While shard `o` is copied slot by slot, up to slot `(r, i)`, into the
/// half `h` for shard indices `[lo, hi)`: `h` holds exactly the pairs of
/// `o` copied so far that fall in its range, and its live slots all come
/// before `(r, i)`.
pub open spec fn half_inv(o: ShardFile, h: ShardFile, lo: int, hi: int, r: int, i: int) -> bool {
    &&& h.wf()
    &&& h.start == lo
    &&& h.end == hi
    &&& forall|q: int, j: int|
        0 <= q < ROWS && 0 <= j < WIDTH && #[trigger] h.live(q, j) ==> before(q, j, r, i)
    &&& forall|k: Seq<u8>|
        #[trigger] h.lookup(k) == if lo <= shard_of(sip_of(k)) < hi && moved(o, k, r, i) {
            o.lookup(k)
        } else {
            None
        }
}

proof fn lemma_half_start(o: ShardFile, h: ShardFile, lo: int, hi: int)
    requires
        h.wf(),
        h.start == lo,
        h.end == hi,
        forall|q: int, j: int| 0 <= q < ROWS && 0 <= j < WIDTH ==> !#[trigger] h.live(q, j),
        forall|k: Seq<u8>| #[trigger] h.lookup(k) is None,
    ensures
        half_inv(o, h, lo, hi, 0, 0),
{
    assert forall|k: Seq<u8>| #[trigger] h.lookup(k) == if lo <= shard_of(sip_of(k)) < hi && moved(
        o,
        k,
        0,
        0,
    ) {
        o.lookup(k)
    } else {
        None
    } by {
        if moved(o, k, 0, 0) {
            let j = choose|j: int| #[trigger] o.holds(row_of(sip_of(k)), j, k) && before(row_of(sip_of(k)), j, 0, 0);
        }
    }
}

/// Slot `(r, i)` of `o` copies nothing new into `h`.
proof fn lemma_half_skip(o: ShardFile, h: ShardFile, lo: int, hi: int, r: int, i: int)
    requires
        o.wf(),
        0 <= r < ROWS,
        0 <= i < WIDTH,
        half_inv(o, h, lo, hi, r, i),
        o.live(r, i) ==> !(lo <= shard_of(sip_of(o.key_at(r, i))) < hi),
    ensures
        half_inv(o, h, lo, hi, r, i + 1),
{
    assert forall|k: Seq<u8>| #[trigger] h.lookup(k) == if lo <= shard_of(sip_of(k)) < hi && moved(
        o,
        k,
        r,
        i + 1,
    ) {
        o.lookup(k)
    } else {
        None
    } by {
        if lo <= shard_of(sip_of(k)) < hi && moved(o, k, r, i + 1) {
            let j = choose|j: int| #[trigger] o.holds(row_of(sip_of(k)), j, k) && before(row_of(sip_of(k)), j, r, i + 1);
            assert(before(row_of(sip_of(k)), j, r, i));
            assert(moved(o, k, r, i));
        }
    }
}

/// Slot `(r, i)` of `o`, live and in `h`'s range, was copied into `h`.
proof fn lemma_half_insert(
    o: ShardFile,
    h: ShardFile,
    h2: ShardFile,
    lo: int,
    hi: int,
    r: int,
    i: int,
)
    requires
        o.wf(),
        0 <= r < ROWS,
        0 <= i < WIDTH,
        half_inv(o, h, lo, hi, r, i),
        o.live(r, i),
        lo <= shard_of(sip_of(o.key_at(r, i))) < hi,
        !h.live(r, i),
        h2.wf(),
        h2.start == lo,
        h2.end == hi,
        forall|q: int, j: int|
            0 <= q < ROWS && 0 <= j < WIDTH && #[trigger] h2.live(q, j) ==> h.live(q, j) || (q == r
                && forall|j2: int| 0 <= j2 < j ==> h.live(r, j2)),
        forall|k: Seq<u8>|
            #[trigger] h2.lookup(k) == if k == o.key_at(r, i) {
                Some(o.value_at(r, i))
            } else {
                h.lookup(k)
            },
    ensures
        half_inv(o, h2, lo, hi, r, i + 1),
{
    let kk = o.key_at(r, i);
    assert(o.slot_wf(r, i));
    assert(o.holds(r, i, kk));
    o.lemma_lookup_at(r, i, kk);
    assert forall|q: int, j: int|
        0 <= q < ROWS && 0 <= j < WIDTH && #[trigger] h2.live(q, j) implies before(q, j, r, i + 1) by {
        if !h.live(q, j) && j > i {
            assert(h.live(r, i));
        }
    }
    assert forall|k: Seq<u8>| #[trigger] h2.lookup(k) == if lo <= shard_of(sip_of(k)) < hi && moved(
        o,
        k,
        r,
        i + 1,
    ) {
        o.lookup(k)
    } else {
        None
    } by {
        if k == kk {
            assert(moved(o, k, r, i + 1));
        } else if moved(o, k, r, i + 1) {
            let j = choose|j: int| #[trigger] o.holds(row_of(sip_of(k)), j, k) && before(row_of(sip_of(k)), j, r, i + 1);
            assert(before(row_of(sip_of(k)), j, r, i));
            assert(moved(o, k, r, i));
        }
    }
}

proof fn lemma_half_row(o: ShardFile, h: ShardFile, lo: int, hi: int, r: int)
    requires
        0 <= r < ROWS,
        half_inv(o, h, lo, hi, r, WIDTH as int),
    ensures
        half_inv(o, h, lo, hi, r + 1, 0),
{
    assert forall|k: Seq<u8>| #[trigger] h.lookup(k) == if lo <= shard_of(sip_of(k)) < hi && moved(
        o,
        k,
        r + 1,
        0,
    ) {
        o.lookup(k)
    } else {
        None
    } by {
        if moved(o, k, r + 1, 0) {
            let j = choose|j: int| #[trigger] o.holds(row_of(sip_of(k)), j, k) && before(row_of(sip_of(k)), j, r + 1, 0);
            assert(moved(o, k, r, WIDTH as int));
        }
        if moved(o, k, r, WIDTH as int) {
            let j = choose|j: int| #[trigger] o.holds(row_of(sip_of(k)), j, k) && before(row_of(sip_of(k)), j, r, WIDTH as int);
            assert(moved(o, k, r + 1, 0));
        }
    }
}

proof fn lemma_half_done(o: ShardFile, h: ShardFile, lo: int, hi: int)
    requires
        o.wf(),
        half_inv(o, h, lo, hi, ROWS as int, 0),
    ensures
        forall|k: Seq<u8>|
            #[trigger] h.lookup(k) == if lo <= shard_of(sip_of(k)) < hi {
                o.lookup(k)
            } else {
                None
            },
        lo == o.start ==> forall|k: Seq<u8>|
            #[trigger] h.lookup(k) == if shard_of(sip_of(k)) < hi {
                o.lookup(k)
            } else {
                None
            },
        hi == o.end ==> forall|k: Seq<u8>|
            #[trigger] h.lookup(k) == if lo <= shard_of(sip_of(k)) {
                o.lookup(k)
            } else {
                None
            },
{
    assert forall|k: Seq<u8>| #[trigger] o.lookup(k) is Some implies o.start <= shard_of(sip_of(k)) < o.end by {
        let rk = row_of(sip_of(k));
        let j = choose|j: int| o.holds(rk, j, k);
        assert(o.slot_wf(rk, j));
    }
    assert forall|k: Seq<u8>| #[trigger] h.lookup(k) == if lo <= shard_of(sip_of(k)) < hi {
        o.lookup(k)
    } else {
        None
    } by {
        let rk = row_of(sip_of(k));
        if exists|j: int| o.holds(rk, j, k) {
            let j = choose|j: int| o.holds(rk, j, k);
            assert(moved(o, k, ROWS as int, 0));
        }
    }
}

/// A write or removal of `key` leaves every other key's lookup as it was:
/// what `Store::set` and `Store::remove` ensure of each call.
pub open spec fn touches_only(before: Store, after: Store, key: Seq<u8>) -> bool {
    forall|k: Seq<u8>| k != key ==> #[trigger] after.lookup(k) == before.lookup(k)
}

/// Over any run of calls of `set` and `remove` on keys other than `k`, the
/// value looked up under `k` stays what it was: after `set(k, v)` the store
/// keeps answering `v`, and after `remove(k)` it keeps answering nothing.
pub proof fn lemma_untouched_key(states: Seq<Store>, keys: Seq<Seq<u8>>, k: Seq<u8>)
    requires
        states.len() == keys.len() + 1,
        forall|i: int| 0 <= i < keys.len() ==> #[trigger] keys[i] != k,
        forall|i: int|
            0 <= i < keys.len() ==> touches_only(#[trigger] states[i], states[i + 1], keys[i]),
    ensures
        states.last().lookup(k) == states[0].lookup(k),
    decreases keys.len(),
{
    if keys.len() > 0 {
        let n = keys.len() - 1;
        lemma_untouched_key(states.drop_last(), keys.drop_last(), k);
        assert(states.drop_last().last() == states[n]);
        assert(touches_only(states[n], states[n + 1], keys[n]));
        assert(keys[n] != k);
        assert(states[n + 1].lookup(k) == states[n].lookup(k));
    }
}

} // verus!
