//! A multi-key index over a batch of block records.
//!
//! The index owns the records and keeps three lookups over them: identifier
//! to record, content hash to identifier, and timestamp to the identifiers
//! that carry it, in insertion order. It is built once from a batch and is
//! read-only afterwards.
//!
//! Duplicates in the batch follow last-writer-wins: a later record with an
//! identifier already seen replaces the stored record, and a later record
//! with a hash already seen takes over that hash. An identifier is filed
//! under a timestamp at most once: a record whose identifier is already in
//! the bucket for its timestamp leaves the bucket as it is. When a later
//! record with the same identifier carries another timestamp or hash, the
//! earlier record's timestamp entry and hash entry are kept; they resolve to
//! whatever record is current under that identifier.

use vstd::prelude::*;
use crate::block::BlockResult;
use crate::keyed::KeyedMap;

verus! {

/// The abstract content of an index.
pub struct IndexModel {
    /// Primary store: identifier to record.
    pub ids: Map<Seq<char>, BlockResult>,
    /// Hash index: content hash to identifier.
    pub hashes: Map<Seq<char>, Seq<char>>,
    /// Timestamp index: timestamp to identifiers, in insertion order.
    pub stamps: Map<u64, Seq<Seq<char>>>,
}

/// The index with nothing in it.
pub open spec fn empty_model() -> IndexModel {
    IndexModel { ids: Map::empty(), hashes: Map::empty(), stamps: Map::empty() }
}

/// The identifiers filed under timestamp `t` (none if `t` is absent).
pub open spec fn bucket(m: IndexModel, t: u64) -> Seq<Seq<char>> {
    if m.stamps.contains_key(t) {
        m.stamps[t]
    } else {
        Seq::empty()
    }
}

/// Bucket `b` with `id` appended, unless `id` is already in it.
pub open spec fn filed(b: Seq<Seq<char>>, id: Seq<char>) -> Seq<Seq<char>> {
    if b.contains(id) {
        b
    } else {
        b.push(id)
    }
}

/// One construction step: file `r` under its hash, its timestamp and its
/// identifier, in that order, overwriting earlier hash and identifier entries
/// and filing an identifier under a timestamp at most once.
pub open spec fn insert_record(m: IndexModel, r: BlockResult) -> IndexModel {
    IndexModel {
        hashes: m.hashes.insert(r.hash@, r.id@),
        stamps: m.stamps.insert(r.timestamp, filed(bucket(m, r.timestamp), r.id@)),
        ids: m.ids.insert(r.id@, r),
    }
}

/// The index that a batch builds: each record inserted in batch order.
pub open spec fn model_of(rs: Seq<BlockResult>) -> IndexModel
    decreases rs.len(),
{
    if rs.len() == 0 {
        empty_model()
    } else {
        insert_record(model_of(rs.drop_last()), rs.last())
    }
}

/// What a lookup by identifier yields.
pub open spec fn record_of_id(m: IndexModel, id: Seq<char>) -> Option<BlockResult> {
    if m.ids.contains_key(id) {
        Some(m.ids[id])
    } else {
        None
    }
}

/// What a lookup by hash yields: the hash's identifier, resolved through the
/// primary store.
pub open spec fn record_of_hash(m: IndexModel, hash: Seq<char>) -> Option<BlockResult> {
    if m.hashes.contains_key(hash) {
        record_of_id(m, m.hashes[hash])
    } else {
        None
    }
}

/// The records filed under timestamp `t`, resolved through the primary
/// store, in insertion order.
pub open spec fn records_at(m: IndexModel, t: u64) -> Seq<BlockResult> {
    bucket(m, t).map_values(|id: Seq<char>| m.ids[id])
}

/// The records filed under each timestamp from `start` to `end` inclusive,
/// concatenated by ascending timestamp.
pub open spec fn records_between(m: IndexModel, start: int, end: int) -> Seq<BlockResult>
    decreases end + 1 - start,
{
    if end < start || end < 0 || end > u64::MAX {
        Seq::empty()
    } else {
        records_between(m, start, end - 1) + records_at(m, end as u64)
    }
}

/// Indexes block records for lookup by identifier, hash and timestamp.
pub struct BlockResultIndex {
    by_id: KeyedMap<BlockResult>,
    by_hash: KeyedMap<String>,
    by_timestamp: Vec<(u64, Vec<String>)>,
    model: Ghost<IndexModel>,
}

/// The identifiers of one bucket, as plain values.
pub open spec fn id_views(v: Seq<String>) -> Seq<Seq<char>> {
    v.map_values(|s: String| s@)
}

impl BlockResultIndex {
    /// The abstract content of the index.
    pub closed spec fn view(&self) -> IndexModel {
        self.model@
    }

    #[verifier::type_invariant]
    closed spec fn inv(&self) -> bool {
        &&& self.by_id@ == self.model@.ids
        &&& self.by_hash@.map_values(|id: String| id@) == self.model@.hashes
        &&& stamps_ok(self.by_timestamp@, self.model@.stamps)
        &&& model_wf(self.model@)
    }
}

/// The timestamp index holds one bucket per timestamp, by ascending
/// timestamp, and `m` is its content.
spec fn stamps_ok(v: Seq<(u64, Vec<String>)>, m: Map<u64, Seq<Seq<char>>>) -> bool {
    &&& forall|i: int, j: int| 0 <= i < j < v.len() ==> v[i].0 < v[j].0
    &&& forall|t: u64| m.contains_key(t) <==> exists|i: int| 0 <= i < v.len() && v[i].0 == t
    &&& forall|i: int| 0 <= i < v.len() ==> m[#[trigger] v[i].0] == id_views(v[i].1@)
}

/// The secondary indices name only identifiers of the primary store, and
/// each stored record sits under its own identifier.
pub open spec fn model_wf(m: IndexModel) -> bool {
    &&& forall|h: Seq<char>| #[trigger] m.hashes.contains_key(h) ==> m.ids.contains_key(m.hashes[h])
    &&& forall|t: u64, j: int|
        m.stamps.contains_key(t) && 0 <= j < m.stamps[t].len() ==> m.ids.contains_key(
            #[trigger] m.stamps[t][j],
        )
    &&& forall|k: Seq<char>| #[trigger] m.ids.contains_key(k) ==> m.ids[k].id@ == k
    &&& forall|t: u64| #[trigger] m.stamps.contains_key(t) ==> m.stamps[t].no_duplicates()
}

impl BlockResultIndex {
    /// The record stored under identifier `id`, if any.
    pub fn get_by_id(&self, id: &str) -> (r: Option<&BlockResult>)
        ensures
            match r {
                Some(b) => record_of_id(self@, id@) == Some(*b),
                None => record_of_id(self@, id@) is None,
            },
    {
        proof { use_type_invariant(self); }
        self.by_id.get(id)
    }

    /// The record whose hash is `hash`: the hash index gives an identifier,
    /// which the primary store resolves.
    pub fn get_by_hash(&self, hash: &str) -> (r: Option<&BlockResult>)
        ensures
            match r {
                Some(b) => record_of_hash(self@, hash@) == Some(*b),
                None => record_of_hash(self@, hash@) is None,
            },
    {
        proof { use_type_invariant(self); }
        match self.by_hash.get(hash) {
            Some(id) => self.by_id.get(id.as_str()),
            None => None,
        }
    }
}

/// The records behind a sequence of references.
pub open spec fn deref_all(v: Seq<&BlockResult>) -> Seq<BlockResult> {
    v.map_values(|b: &BlockResult| *b)
}

proof fn lemma_between_split(m: IndexModel, s: int, a: int, b: int)
    requires
        s - 1 <= a <= b <= u64::MAX,
    ensures
        records_between(m, s, b) == records_between(m, s, a) + records_between(m, a + 1, b),
    decreases b - a,
{
    if a == b {
        assert(records_between(m, a + 1, b) =~= Seq::empty());
        assert(records_between(m, s, b) =~= records_between(m, s, a) + Seq::empty());
    } else {
        lemma_between_split(m, s, a, b - 1);
        lemma_between_split(m, a + 1, b - 1, b - 1);
        assert(records_between(m, s, b) =~= records_between(m, s, a) + records_between(
            m,
            a + 1,
            b,
        ));
    }
}

proof fn lemma_between_gap(m: IndexModel, a: int, b: int)
    requires
        forall|t: u64| a <= t <= b ==> !m.stamps.contains_key(t),
    ensures
        records_between(m, a, b) == Seq::<BlockResult>::empty(),
    decreases b + 1 - a,
{
    if b < a || b < 0 || b > u64::MAX {
    } else {
        assert(!m.stamps.contains_key(b as u64));
        lemma_between_gap(m, a, b - 1);
        assert(records_at(m, b as u64) =~= Seq::empty());
        assert(records_between(m, a, b) =~= Seq::empty());
    }
}

impl BlockResultIndex {
    /// Appends, for each identifier of `ids` in order, the record stored
    /// under it.
    fn push_resolved<'a>(&'a self, ids: &Vec<String>, out: &mut Vec<&'a BlockResult>)
        requires
            forall|j: int| 0 <= j < ids.len() ==> self@.ids.contains_key(#[trigger] ids[j]@),
        ensures
            deref_all(final(out)@) == deref_all(old(out)@) + id_views(ids@).map_values(
                |id: Seq<char>| self@.ids[id],
            ),
    {
        proof { use_type_invariant(self); }
        let ghost start = deref_all(out@);
        let mut j: usize = 0;
        while j < ids.len()
            invariant
                j <= ids.len(),
                forall|k: int| 0 <= k < ids.len() ==> self@.ids.contains_key(#[trigger] ids[k]@),
                deref_all(out@) == start + id_views(ids@.subrange(0, j as int)).map_values(
                    |id: Seq<char>| self@.ids[id],
                ),
            decreases ids.len() - j,
        {
            proof {
                use_type_invariant(self);
                assert(ids@.subrange(0, j + 1) =~= ids@.subrange(0, j as int).push(ids[j as int]));
                assert(id_views(ids@.subrange(0, j + 1)) =~= id_views(
                    ids@.subrange(0, j as int),
                ).push(ids[j as int]@));
            }
            let ghost prev = deref_all(out@);
            match self.by_id.get(ids[j].as_str()) {
                Some(b) => {
                    out.push(b);
                    assert(deref_all(out@) =~= prev.push(*b));
                },
                None => {},
            }
            j += 1;
            assert(deref_all(out@) =~= start + id_views(ids@.subrange(0, j as int)).map_values(
                |id: Seq<char>| self@.ids[id],
            ));
        }
        assert(ids@.subrange(0, j as int) =~= ids@);
    }

    /// Position of the bucket for timestamp `t` in the timestamp index.
    fn find_stamp(&self, t: u64) -> (r: Option<usize>)
        ensures
            match r {
                Some(i) => i < self.by_timestamp.len() && self.by_timestamp[i as int].0 == t,
                None => !self@.stamps.contains_key(t),
            },
    {
        proof { use_type_invariant(self); }
        let mut i: usize = 0;
        while i < self.by_timestamp.len()
            invariant
                i <= self.by_timestamp.len(),
                forall|j: int| 0 <= j < i ==> self.by_timestamp[j].0 != t,
            decreases self.by_timestamp.len() - i,
        {
            if self.by_timestamp[i].0 == t {
                return Some(i);
            }
            i += 1;
        }
        None
    }

    /// The records filed under exactly `timestamp`, in insertion order; empty
    /// if the timestamp is unknown.
    pub fn get_by_timestamp(&self, timestamp: u64) -> (r: Vec<&BlockResult>)
        ensures
            deref_all(r@) == records_at(self@, timestamp),
    {
        proof { use_type_invariant(self); }
        let mut out: Vec<&BlockResult> = Vec::new();
        match self.find_stamp(timestamp) {
            Some(i) => {
                let ghost ids = self.by_timestamp[i as int].1;
                assert forall|j: int| 0 <= j < ids.len() implies self@.ids.contains_key(
                    #[trigger] ids[j]@,
                ) by {
                    assert(id_views(ids@)[j] == ids[j]@);
                }
                self.push_resolved(&self.by_timestamp[i].1, &mut out);
                assert(deref_all(out@) =~= records_at(self@, timestamp));
            },
            None => {
                assert(deref_all(out@) =~= records_at(self@, timestamp));
            },
        }
        out
    }

    /// The records filed under every timestamp from `start` to `end`
    /// inclusive, by ascending timestamp and in insertion order within one
    /// timestamp; empty when `start > end`. Only the timestamps present are
    /// visited, so the cost does not grow with the width of the range.
    pub fn get_in_timestamp_range(&self, start: u64, end: u64) -> (r: Vec<&BlockResult>)
        ensures
            deref_all(r@) == records_between(self@, start as int, end as int),
    {
        proof { use_type_invariant(self); }
        let mut out: Vec<&BlockResult> = Vec::new();
        let n = self.by_timestamp.len();
        let mut i: usize = 0;
        proof {
            assert forall|u: u64| u < self.bound(0) implies !self@.stamps.contains_key(u) by {
                if self@.stamps.contains_key(u) {
                    let j = choose|j: int|
                        0 <= j < self.by_timestamp.len() && self.by_timestamp[j].0 == u;
                    if j > 0 {
                        assert(self.by_timestamp[0].0 < self.by_timestamp[j].0);
                    }
                }
            }
            lemma_between_gap(self@, start as int, Self::upto(end as int, self.bound(0)));
            assert(deref_all(out@) =~= Seq::empty());
        }
        while i < n
            invariant
                i <= n == self.by_timestamp.len(),
                deref_all(out@) == records_between(
                    self@,
                    start as int,
                    Self::upto(end as int, self.bound(i as int)),
                ),
            decreases n - i,
        {
            let t = self.by_timestamp[i].0;
            let ghost hi0 = Self::upto(end as int, self.bound(i as int));
            let ghost hi1 = Self::upto(end as int, self.bound(i + 1));
            proof {
                use_type_invariant(self);
                assert forall|u: u64| t < u < self.bound(i + 1) implies !self@.stamps.contains_key(
                    u,
                ) by {
                    if self@.stamps.contains_key(u) {
                        let j = choose|j: int|
                            0 <= j < self.by_timestamp.len() && self.by_timestamp[j].0 == u;
                        if j < i {
                            assert(self.by_timestamp[j].0 < self.by_timestamp[i as int].0);
                        } else if j > i + 1 {
                            assert(self.by_timestamp[i + 1].0 < self.by_timestamp[j].0);
                        }
                    }
                }
            }
            if start <= t && t <= end {
                let ghost ids = self.by_timestamp[i as int].1;
                assert forall|j: int| 0 <= j < ids.len() implies self@.ids.contains_key(
                    #[trigger] ids[j]@,
                ) by {
                    assert(id_views(ids@)[j] == ids[j]@);
                }
                self.push_resolved(&self.by_timestamp[i].1, &mut out);
                proof {
                    lemma_between_split(self@, start as int, t - 1, hi1);
                    lemma_between_split(self@, t as int, t as int, hi1);
                    lemma_between_gap(self@, t + 1, hi1);
                    assert(records_between(self@, t as int, t - 1) =~= Seq::empty());
                    assert(records_between(self@, t as int, t as int) =~= records_at(self@, t));
                    assert(id_views(ids@).map_values(|id: Seq<char>| self@.ids[id]) =~= records_at(
                        self@,
                        t,
                    ));
                    assert(records_between(self@, start as int, hi1) =~= records_between(
                        self@,
                        start as int,
                        hi0,
                    ) + records_at(self@, t));
                }
            } else if t < start {
                proof {
                    lemma_between_gap(self@, start as int, hi1);
                    lemma_between_gap(self@, start as int, hi0);
                }
            }
            i += 1;
        }
        out
    }

    /// One past the largest timestamp that the buckets before position `i`
    /// can hold.
    closed spec fn bound(&self, i: int) -> int {
        if i < self.by_timestamp.len() {
            self.by_timestamp[i].0 as int
        } else {
            u64::MAX + 1
        }
    }

    /// The smaller of `end` and `bound - 1`.
    spec fn upto(end: int, bound: int) -> int {
        if end < bound - 1 { end } else { bound - 1 }
    }
}

/// Appends `id` to the bucket for timestamp `t`, creating the bucket in its
/// place by ascending timestamp if it is absent.
/// Whether `id` is among `ids`.
fn holds_id(ids: &Vec<String>, id: &String) -> (r: bool)
    ensures
        r == id_views(ids@).contains(id@),
{
    let mut k: usize = 0;
    while k < ids.len()
        invariant
            k <= ids.len(),
            forall|j: int| 0 <= j < k ==> ids[j]@ != id@,
        decreases ids.len() - k,
    {
        if ids[k] == *id {
            assert(id_views(ids@)[k as int] == id@);
            return true;
        }
        k += 1;
    }
    assert forall|j: int| 0 <= j < id_views(ids@).len() implies id_views(ids@)[j] != id@ by {
        assert(id_views(ids@)[j] == ids[j]@);
    }
    false
}

fn put_stamp(
    v: &mut Vec<(u64, Vec<String>)>,
    t: u64,
    id: String,
    Ghost(m): Ghost<Map<u64, Seq<Seq<char>>>>,
)
    requires
        stamps_ok(old(v)@, m),
    ensures
        stamps_ok(
            final(v)@,
            m.insert(t, filed(if m.contains_key(t) { m[t] } else { Seq::empty() }, id@)),
        ),
{
    let ghost m2 = m.insert(t, filed(if m.contains_key(t) { m[t] } else { Seq::empty() }, id@));
    let mut p: usize = 0;
    while p < v.len() && v[p].0 < t
        invariant
            p <= v.len(),
            stamps_ok(v@, m),
            forall|j: int| 0 <= j < p ==> v[j].0 < t,
        decreases v.len() - p,
    {
        p += 1;
    }
    let ghost v0 = v@;
    if p < v.len() && v[p].0 == t {
        let (t0, mut ids) = v.remove(p);
        let ghost old_ids = ids@;
        if !holds_id(&ids, &id) {
            ids.push(id);
            assert(id_views(ids@) =~= id_views(old_ids).push(id@));
        }
        v.insert(p, (t0, ids));
        assert(v@ == v0.update(p as int, v@[p as int]));
        assert forall|u: u64| m2.contains_key(u) implies exists|j: int|
            0 <= j < v.len() && v[j].0 == u by {
            if u != t {
                let j = choose|j: int| 0 <= j < v0.len() && v0[j].0 == u;
                assert(v[j].0 == u);
            }
        }
        assert forall|j: int| 0 <= j < v.len() implies m2[#[trigger] v[j].0] == id_views(v[j].1@) by {
            if j != p {
                assert(v[j] == v0[j]);
            }
        }
    } else {
        assert(!m.contains_key(t)) by {
            if m.contains_key(t) {
                let j = choose|j: int| 0 <= j < v0.len() && v0[j].0 == t;
                if j > p {
                    assert(v0[p as int].0 < v0[j].0);
                }
            }
        }
        let mut ids: Vec<String> = Vec::new();
        ids.push(id);
        assert(id_views(ids@) =~= Seq::<Seq<char>>::empty().push(id@));
        assert(!Seq::<Seq<char>>::empty().contains(id@));
        v.insert(p, (t, ids));
        assert(v@ == v0.insert(p as int, v@[p as int]));
        assert forall|i: int, j: int| 0 <= i < j < v.len() implies v[i].0 < v[j].0 by {
            if j < p {
            } else if j == p {
            } else if i < p {
                assert(v[j] == v0[j - 1]);
                if j - 1 > p {
                    assert(v0[p as int].0 < v0[j - 1].0);
                }
            } else if i == p {
                assert(v[j] == v0[j - 1]);
                if j - 1 > p {
                    assert(v0[p as int].0 < v0[j - 1].0);
                }
            } else {
                assert(v[j] == v0[j - 1]);
                assert(v[i] == v0[i - 1]);
            }
        }
        assert forall|u: u64| m2.contains_key(u) implies exists|j: int|
            0 <= j < v.len() && v[j].0 == u by {
            if u != t {
                let j = choose|j: int| 0 <= j < v0.len() && v0[j].0 == u;
                if j < p {
                    assert(v[j].0 == u);
                } else {
                    assert(v[j + 1].0 == u);
                }
            } else {
                assert(v[p as int].0 == u);
            }
        }
        assert forall|u: u64| (exists|j: int| 0 <= j < v.len() && v[j].0 == u) implies m2.contains_key(u) by {
            let j = choose|j: int| 0 <= j < v.len() && v[j].0 == u;
            if j < p {
                assert(v0[j].0 == u);
            } else if j > p {
                assert(v0[j - 1].0 == u);
            }
        }
        assert forall|j: int| 0 <= j < v.len() implies m2[#[trigger] v[j].0] == id_views(v[j].1@) by {
            if j < p {
                assert(v[j] == v0[j]);
            } else if j > p {
                assert(v[j] == v0[j - 1]);
            }
        }
    }
}


proof fn lemma_insert_keeps_wf(m: IndexModel, r: BlockResult)
    requires
        model_wf(m),
    ensures
        model_wf(insert_record(m, r)),
{
    let m2 = insert_record(m, r);
    assert forall|t: u64, j: int|
        m2.stamps.contains_key(t) && 0 <= j < m2.stamps[t].len() implies m2.ids.contains_key(
        #[trigger] m2.stamps[t][j],
    ) by {
        if t == r.timestamp && j < bucket(m, t).len() {
            assert(m2.stamps[t][j] == m.stamps[t][j]);
        }
    }
    let b = bucket(m, r.timestamp);
    assert(b.no_duplicates());
    assert(filed(b, r.id@).no_duplicates()) by {
        if !b.contains(r.id@) {
            assert forall|i: int, j: int|
                0 <= i < b.len() + 1 && 0 <= j < b.len() + 1 && i != j implies b.push(r.id@)[i]
                != b.push(r.id@)[j] by {
                if i == b.len() {
                    assert(b[j] != r.id@);
                } else if j == b.len() {
                    assert(b[i] != r.id@);
                }
            }
        }
    }
}

impl BlockResultIndex {
    /// Builds the index over `results`, filing each record in batch order
    /// under its hash, its timestamp and its identifier.
    pub fn new(results: Vec<BlockResult>) -> (r: Self)
        ensures
            r@ == model_of(results@),
    {
        let n = results.len();
        let by_id = KeyedMap::with_capacity(n);
        let by_hash: KeyedMap<String> = KeyedMap::with_capacity(n);
        assert(by_hash@.map_values(|id: String| id@) =~= empty_model().hashes);
        let mut index = BlockResultIndex {
            by_id,
            by_hash,
            by_timestamp: Vec::new(),
            model: Ghost(empty_model()),
        };
        let ghost all = results@;
        for result in it: results
            invariant
                all == it.seq(),
                index@ == model_of(all.take(it.index() as int)),
        {
            proof {
                assert(all.take(it.index() + 1).drop_last() =~= all.take(it.index() as int));
            }
            index = index.insert(result);
        }
        assert(all.take(all.len() as int) =~= all);
        index
    }

    /// The index with `r` filed as one more record of the batch.
    fn insert(self, r: BlockResult) -> (s: Self)
        ensures
            s@ == insert_record(self@, r),
    {
        proof {
            use_type_invariant(&self);
            lemma_insert_keeps_wf(self@, r);
        }
        let ghost m = self@;
        let BlockResultIndex { mut by_id, mut by_hash, mut by_timestamp, model } = self;
        let ghost h0 = by_hash@;
        by_hash.insert(r.hash.clone(), r.id.clone());
        put_stamp(&mut by_timestamp, r.timestamp, r.id.clone(), Ghost(m.stamps));
        by_id.insert(r.id.clone(), r);
        proof {
            assert(by_hash@.map_values(|id: String| id@) =~= h0.map_values(|id: String| id@).insert(
                r.hash@,
                r.id@,
            ));
        }
        BlockResultIndex { by_id, by_hash, by_timestamp, model: Ghost(insert_record(m, r)) }
    }
}


/// The last record of `rs` with identifier `id`, if any.
pub open spec fn last_with_id(rs: Seq<BlockResult>, id: Seq<char>) -> Option<BlockResult>
    decreases rs.len(),
{
    if rs.len() == 0 {
        None
    } else if rs.last().id@ == id {
        Some(rs.last())
    } else {
        last_with_id(rs.drop_last(), id)
    }
}

/// The records of `rs` with timestamp `t`, in batch order.
pub open spec fn stamped(rs: Seq<BlockResult>, t: u64) -> Seq<BlockResult> {
    rs.filter(|r: BlockResult| r.timestamp == t)
}

/// No two records of `rs` share an identifier.
pub open spec fn distinct_ids(rs: Seq<BlockResult>) -> bool {
    forall|i: int, j: int| 0 <= i < j < rs.len() ==> rs[i].id@ != rs[j].id@
}

/// The keys of a built index are exactly the identifiers, hashes and
/// timestamps that occur in the batch, and its secondary indices only name
/// stored identifiers.
pub proof fn lemma_model_keys(rs: Seq<BlockResult>)
    ensures
        model_wf(model_of(rs)),
        forall|k: Seq<char>|
            model_of(rs).ids.contains_key(k) <==> exists|i: int| 0 <= i < rs.len() && rs[i].id@ == k,
        forall|h: Seq<char>|
            model_of(rs).hashes.contains_key(h) <==> exists|i: int|
                0 <= i < rs.len() && rs[i].hash@ == h,
        forall|t: u64|
            model_of(rs).stamps.contains_key(t) <==> exists|i: int|
                0 <= i < rs.len() && rs[i].timestamp == t,
        forall|t: u64| #[trigger]
            model_of(rs).stamps.contains_key(t) ==> model_of(rs).stamps[t].len() > 0,
    decreases rs.len(),
{
    if rs.len() > 0 {
        let p = rs.drop_last();
        lemma_model_keys(p);
        lemma_insert_keeps_wf(model_of(p), rs.last());
        assert forall|k: Seq<char>|
            model_of(rs).ids.contains_key(k) <==> exists|i: int|
                0 <= i < rs.len() && rs[i].id@ == k by {
            if model_of(rs).ids.contains_key(k) && k != rs.last().id@ {
                let i = choose|i: int| 0 <= i < p.len() && p[i].id@ == k;
                assert(rs[i].id@ == k);
            }
            if exists|i: int| 0 <= i < rs.len() && rs[i].id@ == k {
                let i = choose|i: int| 0 <= i < rs.len() && rs[i].id@ == k;
                if i < p.len() {
                    assert(p[i].id@ == k);
                }
            }
        }
        assert forall|h: Seq<char>|
            model_of(rs).hashes.contains_key(h) <==> exists|i: int|
                0 <= i < rs.len() && rs[i].hash@ == h by {
            if model_of(rs).hashes.contains_key(h) && h != rs.last().hash@ {
                let i = choose|i: int| 0 <= i < p.len() && p[i].hash@ == h;
                assert(rs[i].hash@ == h);
            }
            if exists|i: int| 0 <= i < rs.len() && rs[i].hash@ == h {
                let i = choose|i: int| 0 <= i < rs.len() && rs[i].hash@ == h;
                if i < p.len() {
                    assert(p[i].hash@ == h);
                }
            }
        }
        assert forall|t: u64|
            model_of(rs).stamps.contains_key(t) <==> exists|i: int|
                0 <= i < rs.len() && rs[i].timestamp == t by {
            if model_of(rs).stamps.contains_key(t) && t != rs.last().timestamp {
                let i = choose|i: int| 0 <= i < p.len() && p[i].timestamp == t;
                assert(rs[i].timestamp == t);
            }
            if exists|i: int| 0 <= i < rs.len() && rs[i].timestamp == t {
                let i = choose|i: int| 0 <= i < rs.len() && rs[i].timestamp == t;
                if i < p.len() {
                    assert(p[i].timestamp == t);
                }
            }
        }
    }
}

/// The records filed under timestamp `t` are non-empty exactly when some
/// record of the batch carries `t`: a built index has one non-empty group per
/// distinct timestamp of the batch.
pub proof fn lemma_timestamp_present(rs: Seq<BlockResult>, t: u64)
    ensures
        records_at(model_of(rs), t).len() > 0 <==> exists|i: int|
            0 <= i < rs.len() && rs[i].timestamp == t,
{
    lemma_model_keys(rs);
}

/// The records filed under one timestamp carry distinct identifiers: an
/// identifier is filed under a timestamp at most once.
pub proof fn lemma_bucket_ids_distinct(rs: Seq<BlockResult>, t: u64)
    ensures
        forall|a: int, b: int|
            0 <= a < b < records_at(model_of(rs), t).len() ==> (#[trigger] records_at(
                model_of(rs),
                t,
            )[a]).id@ != (#[trigger] records_at(model_of(rs), t)[b]).id@,
{
    lemma_model_keys(rs);
    let m = model_of(rs);
    assert forall|a: int, b: int|
        0 <= a < b < records_at(m, t).len() implies (#[trigger] records_at(m, t)[a]).id@ != (
        #[trigger] records_at(m, t)[b]).id@ by {
        assert(m.ids.contains_key(m.stamps[t][a]));
        assert(m.ids.contains_key(m.stamps[t][b]));
        assert(m.stamps[t].no_duplicates());
    }
}

/// A lookup by identifier yields the last record of the batch with that
/// identifier, and nothing when no record has it.
pub proof fn lemma_lookup_by_id(rs: Seq<BlockResult>, id: Seq<char>)
    ensures
        record_of_id(model_of(rs), id) == last_with_id(rs, id),
    decreases rs.len(),
{
    if rs.len() > 0 {
        lemma_lookup_by_id(rs.drop_last(), id);
    }
}

/// Each record of the batch can be found by its identifier, and what is found
/// is the last record of the batch with that identifier.
pub proof fn lemma_every_id_found(rs: Seq<BlockResult>, i: int)
    requires
        0 <= i < rs.len(),
    ensures
        last_with_id(rs, rs[i].id@) is Some,
        last_with_id(rs, rs[i].id@).unwrap().id@ == rs[i].id@,
        record_of_id(model_of(rs), rs[i].id@) == last_with_id(rs, rs[i].id@),
    decreases rs.len(),
{
    lemma_lookup_by_id(rs, rs[i].id@);
    if rs.last().id@ != rs[i].id@ {
        let p = rs.drop_last();
        lemma_every_id_found(p, i);
        assert(p[i] == rs[i]);
    }
}

/// A record whose hash no later record of the batch repeats can be found by
/// that hash, and what is found is the current record under its identifier.
pub proof fn lemma_lookup_by_hash(rs: Seq<BlockResult>, i: int)
    requires
        0 <= i < rs.len(),
        forall|j: int| i < j < rs.len() ==> rs[j].hash@ != rs[i].hash@,
    ensures
        record_of_hash(model_of(rs), rs[i].hash@) == record_of_id(model_of(rs), rs[i].id@),
        record_of_hash(model_of(rs), rs[i].hash@) is Some,
        record_of_hash(model_of(rs), rs[i].hash@).unwrap().id@ == rs[i].id@,
    decreases rs.len(),
{
    lemma_model_keys(rs);
    assert(model_of(rs).ids.contains_key(rs[i].id@));
    if i < rs.len() - 1 {
        let p = rs.drop_last();
        lemma_lookup_by_hash(p, i);
        lemma_model_keys(p);
        assert(p[i] == rs[i]);
    }
}

/// With distinct identifiers, the records filed under timestamp `t` are
/// exactly the records of the batch with timestamp `t`, in batch order.
pub proof fn lemma_timestamp_group(rs: Seq<BlockResult>, t: u64)
    requires
        distinct_ids(rs),
    ensures
        records_at(model_of(rs), t) == stamped(rs, t),
    decreases rs.len(),
{
    reveal(Seq::filter);
    if rs.len() == 0 {
        assert(records_at(model_of(rs), t) =~= Seq::empty());
    } else {
        let p = rs.drop_last();
        let x = rs.last();
        let m = model_of(p);
        let m2 = model_of(rs);
        assert(distinct_ids(p)) by {
            assert forall|i: int, j: int| 0 <= i < j < p.len() implies p[i].id@ != p[j].id@ by {
                assert(p[i] == rs[i] && p[j] == rs[j]);
            }
        }
        lemma_timestamp_group(p, t);
        lemma_model_keys(p);
        assert(!m.ids.contains_key(x.id@)) by {
            if m.ids.contains_key(x.id@) {
                let i = choose|i: int| 0 <= i < p.len() && p[i].id@ == x.id@;
                assert(rs[i] == p[i]);
            }
        }
        let old_part = bucket(m, t).map_values(|id: Seq<char>| m2.ids[id]);
        assert(old_part =~= records_at(m, t)) by {
            assert forall|j: int| 0 <= j < bucket(m, t).len() implies m2.ids[bucket(m, t)[j]]
                == m.ids[bucket(m, t)[j]] by {
                assert(m.ids.contains_key(m.stamps[t][j]));
            }
        }
        if t == x.timestamp {
            assert(records_at(m2, t) =~= old_part.push(x));
        } else {
            assert(records_at(m2, t) =~= old_part);
        }
    }
}

/// A built index answers every query on a key that the batch never holds
/// with nothing.
pub proof fn lemma_unknown_keys(
    rs: Seq<BlockResult>,
    id: Seq<char>,
    hash: Seq<char>,
    t: u64,
    start: u64,
    end: u64,
)
    ensures
        (forall|i: int| 0 <= i < rs.len() ==> rs[i].id@ != id) ==> record_of_id(model_of(rs), id)
            is None,
        (forall|i: int| 0 <= i < rs.len() ==> rs[i].hash@ != hash) ==> record_of_hash(
            model_of(rs),
            hash,
        ) is None,
        (forall|i: int| 0 <= i < rs.len() ==> rs[i].timestamp != t) ==> records_at(model_of(rs), t)
            == Seq::<BlockResult>::empty(),
        (forall|i: int| 0 <= i < rs.len() ==> !(start <= #[trigger] rs[i].timestamp <= end))
            ==> records_between(model_of(rs), start as int, end as int)
            == Seq::<BlockResult>::empty(),
{
    lemma_model_keys(rs);
    if forall|i: int| 0 <= i < rs.len() ==> rs[i].timestamp != t {
        assert(records_at(model_of(rs), t) =~= Seq::empty());
    }
    if forall|i: int| 0 <= i < rs.len() ==> !(start <= #[trigger] rs[i].timestamp <= end) {
        lemma_between_gap(model_of(rs), start as int, end as int);
    }
}

/// An index built from an empty batch answers every query with nothing.
pub proof fn lemma_empty_batch(id: Seq<char>, hash: Seq<char>, t: u64, start: u64, end: u64)
    ensures
        record_of_id(model_of(Seq::empty()), id) is None,
        record_of_hash(model_of(Seq::empty()), hash) is None,
        records_at(model_of(Seq::empty()), t) == Seq::<BlockResult>::empty(),
        records_between(model_of(Seq::empty()), start as int, end as int)
            == Seq::<BlockResult>::empty(),
{
    lemma_unknown_keys(Seq::empty(), id, hash, t, start, end);
}

} // verus!
