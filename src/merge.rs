use vstd::prelude::*;
use crate::category::EndpointType;
use crate::identity::IdentityMapping;
use crate::json::Record;
use crate::normalize::{normalize_record, record_outcome, tagged, NormalizedRecord, Severity};
use crate::identity::IncidentError;

verus! {

/// `s` with `n` placed by timestamp: after every entry with a smaller
/// timestamp, before every entry with a larger one, and in place of an entry
/// with the same timestamp.
pub open spec fn insert_sorted(s: Seq<NormalizedRecord>, n: NormalizedRecord) -> Seq<NormalizedRecord>
    decreases s.len(),
{
    if s.len() == 0 {
        seq![n]
    } else if s.last().timestamp < n.timestamp {
        s.push(n)
    } else if s.last().timestamp == n.timestamp {
        s.drop_last().push(n)
    } else {
        insert_sorted(s.drop_last(), n).push(s.last())
    }
}

/// Timestamps strictly increase along `s`.
pub open spec fn ascending(s: Seq<NormalizedRecord>) -> bool {
    forall|i: int, j: int| 0 <= i < j < s.len() ==> (#[trigger] s[i]).timestamp < (#[trigger] s[j]).timestamp
}

/// Every entry of `insert_sorted(s, n)` is `n` or an entry of `s`.
proof fn lemma_insert_sorted_members(s: Seq<NormalizedRecord>, n: NormalizedRecord)
    ensures
        forall|k: int|
            0 <= k < insert_sorted(s, n).len() ==> #[trigger] insert_sorted(s, n)[k] == n || s.contains(
                insert_sorted(s, n)[k],
            ),
    decreases s.len(),
{
    if s.len() > 0 && s.last().timestamp > n.timestamp {
        lemma_insert_sorted_members(s.drop_last(), n);
        let r = insert_sorted(s, n);
        assert forall|k: int| 0 <= k < r.len() implies #[trigger] r[k] == n || s.contains(r[k]) by {
            if k < r.len() - 1 {
                let x = insert_sorted(s.drop_last(), n)[k];
                if x != n {
                    let m = choose|m: int| 0 <= m < s.drop_last().len() && s.drop_last()[m] == x;
                    assert(s[m] == x);
                }
            } else {
                assert(s[s.len() - 1] == r[k]);
            }
        }
    } else if s.len() > 0 && s.last().timestamp == n.timestamp {
        let r = insert_sorted(s, n);
        assert forall|k: int| 0 <= k < r.len() implies #[trigger] r[k] == n || s.contains(r[k]) by {
            if k < r.len() - 1 {
                assert(s[k] == r[k]);
            }
        }
    } else if s.len() > 0 {
        let r = insert_sorted(s, n);
        assert forall|k: int| 0 <= k < r.len() implies #[trigger] r[k] == n || s.contains(r[k]) by {
            if k < r.len() - 1 {
                assert(s[k] == r[k]);
            }
        }
    }
}

/// Placing a record by timestamp keeps timestamps strictly increasing.
pub proof fn lemma_insert_sorted_ascending(s: Seq<NormalizedRecord>, n: NormalizedRecord)
    requires
        ascending(s),
    ensures
        ascending(insert_sorted(s, n)),
    decreases s.len(),
{
    if s.len() > 0 && s.last().timestamp > n.timestamp {
        let d = s.drop_last();
        assert(ascending(d)) by {
            assert forall|i: int, j: int| 0 <= i < j < d.len() implies (#[trigger] d[i]).timestamp < (
            #[trigger] d[j]).timestamp by {
                assert(d[i] == s[i] && d[j] == s[j]);
            }
        }
        lemma_insert_sorted_ascending(d, n);
        lemma_insert_sorted_members(d, n);
        let r = insert_sorted(s, n);
        let q = insert_sorted(d, n);
        assert forall|i: int, j: int| 0 <= i < j < r.len() implies (#[trigger] r[i]).timestamp < (
        #[trigger] r[j]).timestamp by {
            if j < r.len() - 1 {
                assert(r[i] == q[i] && r[j] == q[j]);
            } else {
                assert(r[i] == q[i]);
                if q[i] != n {
                    let m = choose|m: int| 0 <= m < d.len() && d[m] == q[i];
                    assert(s[m] == q[i]);
                    assert(s[m].timestamp < s[s.len() - 1].timestamp);
                }
            }
        }
    } else if s.len() > 0 {
        let r = insert_sorted(s, n);
        assert forall|i: int, j: int| 0 <= i < j < r.len() implies (#[trigger] r[i]).timestamp < (
        #[trigger] r[j]).timestamp by {
            if j < r.len() - 1 {
                assert(r[i] == s[i] && r[j] == s[j]);
            } else {
                assert(r[i] == s[i]);
                if s.last().timestamp == n.timestamp {
                    assert(s[i].timestamp < s[s.len() - 1].timestamp);
                } else {
                    assert(s[i].timestamp <= s[s.len() - 1].timestamp);
                }
            }
        }
    }
}

/// `s` with every record of `xs` placed in turn, first to last.
pub open spec fn insert_all(s: Seq<NormalizedRecord>, xs: Seq<NormalizedRecord>) -> Seq<NormalizedRecord>
    decreases xs.len(),
{
    if xs.len() == 0 {
        s
    } else {
        insert_sorted(insert_all(s, xs.drop_last()), xs.last())
    }
}

proof fn lemma_insert_sorted_unfold(x: Seq<NormalizedRecord>, l: NormalizedRecord, n: NormalizedRecord)
    ensures
        insert_sorted(x.push(l), n) == if l.timestamp < n.timestamp {
            x.push(l).push(n)
        } else if l.timestamp == n.timestamp {
            x.push(n)
        } else {
            insert_sorted(x, n).push(l)
        },
{
    assert(x.push(l).drop_last() =~= x);
}

/// Placing two records with different timestamps gives the same sequence in
/// either order.
pub proof fn lemma_insert_sorted_commutes(s: Seq<NormalizedRecord>, a: NormalizedRecord, b: NormalizedRecord)
    requires
        a.timestamp != b.timestamp,
    ensures
        insert_sorted(insert_sorted(s, a), b) == insert_sorted(insert_sorted(s, b), a),
    decreases s.len(),
{
    let e = Seq::<NormalizedRecord>::empty();
    if s.len() == 0 {
        assert(insert_sorted(s, a) == e.push(a));
        assert(insert_sorted(s, b) == e.push(b));
        lemma_insert_sorted_unfold(e, a, b);
        lemma_insert_sorted_unfold(e, b, a);
    } else {
        let d = s.drop_last();
        let l = s.last();
        assert(s =~= d.push(l));
        lemma_insert_sorted_unfold(d, l, a);
        lemma_insert_sorted_unfold(d, l, b);
        if l.timestamp > a.timestamp && l.timestamp > b.timestamp {
            lemma_insert_sorted_unfold(insert_sorted(d, a), l, b);
            lemma_insert_sorted_unfold(insert_sorted(d, b), l, a);
            lemma_insert_sorted_commutes(d, a, b);
        } else {
            lemma_insert_sorted_unfold(d, a, b);
            lemma_insert_sorted_unfold(d, b, a);
            lemma_insert_sorted_unfold(d.push(l), a, b);
            lemma_insert_sorted_unfold(d.push(l), b, a);
            lemma_insert_sorted_unfold(insert_sorted(d, a), l, b);
            lemma_insert_sorted_unfold(insert_sorted(d, b), l, a);
        }
    }
}

proof fn lemma_insert_all_moves_past(s: Seq<NormalizedRecord>, a: NormalizedRecord, ys: Seq<NormalizedRecord>)
    requires
        forall|j: int| 0 <= j < ys.len() ==> (#[trigger] ys[j]).timestamp != a.timestamp,
    ensures
        insert_all(insert_sorted(s, a), ys) == insert_sorted(insert_all(s, ys), a),
    decreases ys.len(),
{
    if ys.len() > 0 {
        let d = ys.drop_last();
        assert forall|j: int| 0 <= j < d.len() implies (#[trigger] d[j]).timestamp != a.timestamp by {
            assert(d[j] == ys[j]);
        }
        lemma_insert_all_moves_past(s, a, d);
        assert(ys[ys.len() - 1] == ys.last());
        lemma_insert_sorted_commutes(insert_all(s, d), a, ys.last());
    }
}

/// Merging two batches gives the same records in the same order whichever
/// batch comes first, provided no record of one shares a timestamp with a
/// record of the other.
pub proof fn lemma_merge_order_irrelevant(s: Seq<NormalizedRecord>, xs: Seq<NormalizedRecord>, ys: Seq<NormalizedRecord>)
    requires
        forall|i: int, j: int|
            0 <= i < xs.len() && 0 <= j < ys.len() ==> (#[trigger] xs[i]).timestamp != (#[trigger] ys[j]).timestamp,
    ensures
        insert_all(insert_all(s, xs), ys) == insert_all(insert_all(s, ys), xs),
    decreases xs.len(),
{
    if xs.len() > 0 {
        let d = xs.drop_last();
        let x = xs.last();
        assert forall|i: int, j: int| 0 <= i < d.len() && 0 <= j < ys.len() implies (#[trigger] d[i]).timestamp != (
        #[trigger] ys[j]).timestamp by {
            assert(d[i] == xs[i]);
        }
        lemma_merge_order_irrelevant(s, d, ys);
        assert forall|j: int| 0 <= j < ys.len() implies (#[trigger] ys[j]).timestamp != x.timestamp by {
            assert(xs[xs.len() - 1] == x);
        }
        lemma_insert_all_moves_past(insert_all(s, d), x, ys);
    }
}

/// Normalized records in ascending timestamp order, one per timestamp.
pub struct MergedSet {
    entries: Vec<NormalizedRecord>,
}

impl View for MergedSet {
    type V = Seq<NormalizedRecord>;

    closed spec fn view(&self) -> Seq<NormalizedRecord> {
        self.entries@
    }
}

impl MergedSet {
    /// Timestamps strictly increase along the set.
    pub open spec fn wf(&self) -> bool {
        ascending(self@)
    }

    /// An empty set.
    pub fn new() -> (r: MergedSet)
        ensures
            r@ == Seq::<NormalizedRecord>::empty(),
            r.wf(),
    {
        MergedSet { entries: Vec::new() }
    }

    /// Number of records held.
    pub fn len(&self) -> (r: usize)
        ensures
            r == self@.len(),
    {
        self.entries.len()
    }

    /// Places a record by its timestamp; a record already held under the same
    /// timestamp is replaced.
    pub fn insert(&mut self, n: NormalizedRecord)
        requires
            old(self).wf(),
        ensures
            final(self)@ == insert_sorted(old(self)@, n),
            final(self).wf(),
    {
        proof {
            lemma_insert_sorted_ascending(self@, n);
        }
        let ghost s = self@;
        let t = n.timestamp;
        let mut i: usize = self.entries.len();
        proof {
            assert(s.take(s.len() as int) =~= s);
            assert(insert_sorted(s, n) + s.skip(s.len() as int) =~= insert_sorted(s, n));
        }
        while i > 0 && self.entries[i - 1].timestamp > t
            invariant
                self@ == s,
                t == n.timestamp,
                i <= s.len(),
                insert_sorted(s, n) == insert_sorted(s.take(i as int), n) + s.skip(i as int),
            decreases i,
        {
            proof {
                let p = s.take(i as int);
                assert(p.drop_last() =~= s.take(i - 1));
                assert(p.len() > 0);
                assert(p.last() == s[i - 1]);
                assert(self.entries@[i - 1].timestamp > t);
                assert(s[i - 1].timestamp > n.timestamp);
                assert(insert_sorted(p, n) == insert_sorted(s.take(i - 1), n).push(s[i - 1]));
                assert(insert_sorted(s.take(i - 1), n).push(s[i - 1]) + s.skip(i as int) =~= insert_sorted(
                    s.take(i - 1),
                    n,
                ) + s.skip(i - 1));
            }
            i = i - 1;
        }
        if i > 0 && self.entries[i - 1].timestamp == t {
            proof {
                let p = s.take(i as int);
                assert(p.drop_last() =~= s.take(i - 1));
                assert(insert_sorted(p, n) == s.take(i - 1).push(n));
                assert(s.take(i - 1).push(n) + s.skip(i as int) =~= s.update(i - 1, n));
            }
            self.entries.set(i - 1, n);
        } else {
            proof {
                if i > 0 {
                    let p = s.take(i as int);
                    assert(p.last() == s[i - 1]);
                    assert(insert_sorted(p, n) == p.push(n));
                } else {
                    assert(s.take(0) =~= Seq::<NormalizedRecord>::empty());
                }
                assert(insert_sorted(s.take(i as int), n) =~= s.take(i as int).push(n));
                assert(s.take(i as int).push(n) + s.skip(i as int) =~= s.insert(i as int, n));
            }
            self.entries.insert(i, n);
        }
    }

    /// Hands out the records, in ascending timestamp order.
    pub fn into_records(self) -> (r: Vec<NormalizedRecord>)
        ensures
            r@ == self@,
    {
        self.entries
    }
}

/// A raw record together with the ordering key of its timestamp.
pub struct TimedRecord {
    pub timestamp: u64,
    pub record: Record,
}

/// The records one source delivered.
pub struct Batch {
    pub category: EndpointType,
    pub records: Vec<TimedRecord>,
}

/// The merged records, and how many records of each batch were dropped
/// because they could not be normalized.
pub struct MergeOutcome {
    pub merged: MergedSet,
    pub dropped: Vec<usize>,
}

/// The sequences of `parts`, one after another.
pub open spec fn concat(parts: Seq<Seq<NormalizedRecord>>) -> Seq<NormalizedRecord>
    decreases parts.len(),
{
    if parts.len() == 0 {
        Seq::empty()
    } else {
        concat(parts.drop_last()) + parts.last()
    }
}

/// Positions of the records of `recs` that normalize, in order.
pub open spec fn kept_indices(c: EndpointType, recs: Seq<TimedRecord>, dir: IdentityMapping) -> Seq<int>
    decreases recs.len(),
{
    if recs.len() == 0 {
        Seq::empty()
    } else if record_outcome(c, recs.last().record, dir) is Ok {
        kept_indices(c, recs.drop_last(), dir).push(recs.len() - 1)
    } else {
        kept_indices(c, recs.drop_last(), dir)
    }
}

proof fn lemma_kept_indices_bounds(c: EndpointType, recs: Seq<TimedRecord>, dir: IdentityMapping)
    ensures
        forall|j: int|
            0 <= j < kept_indices(c, recs, dir).len() ==> 0 <= #[trigger] kept_indices(c, recs, dir)[j] < recs.len(),
    decreases recs.len(),
{
    if recs.len() > 0 {
        let d = recs.drop_last();
        lemma_kept_indices_bounds(c, d, dir);
        let ks = kept_indices(c, recs, dir);
        let kd = kept_indices(c, d, dir);
        assert forall|j: int| 0 <= j < ks.len() implies 0 <= #[trigger] ks[j] < recs.len() by {
            if j < kd.len() {
                assert(ks[j] == kd[j]);
            }
        }
    }
}

proof fn lemma_kept_indices_has(c: EndpointType, recs: Seq<TimedRecord>, dir: IdentityMapping, i: int)
    requires
        0 <= i < recs.len(),
        record_outcome(c, recs[i].record, dir) is Ok,
    ensures
        exists|j: int| 0 <= j < kept_indices(c, recs, dir).len() && #[trigger] kept_indices(c, recs, dir)[j] == i,
    decreases recs.len(),
{
    let d = recs.drop_last();
    let ks = kept_indices(c, recs, dir);
    let kd = kept_indices(c, d, dir);
    if i == recs.len() - 1 {
        assert(recs.last() == recs[i]);
        assert(ks[kd.len() as int] == i);
    } else {
        assert(d[i] == recs[i]);
        lemma_kept_indices_has(c, d, dir, i);
        let j = choose|j: int| 0 <= j < kd.len() && #[trigger] kd[j] == i;
        assert(ks[j] == kd[j]);
    }
}

/// A record that normalizes is kept: its batch's part holds an entry with
/// the record's identity, severity and timestamp, tagged with its source.
pub proof fn lemma_normalizing_record_kept(
    part: Seq<NormalizedRecord>,
    c: EndpointType,
    recs: Seq<TimedRecord>,
    dir: IdentityMapping,
    i: int,
    id: u64,
    sev: Severity,
)
    requires
        kept_from(part, c, recs, dir),
        0 <= i < recs.len(),
        record_outcome(c, recs[i].record, dir) == Ok::<(u64, Severity), IncidentError>((id, sev)),
    ensures
        exists|j: int|
            0 <= j < part.len() && (#[trigger] part[j]).identity == id && part[j].severity == sev && part[j].timestamp
                == recs[i].timestamp && part[j].category == c && tagged(recs[i].record, part[j].record, c),
{
    lemma_kept_indices_has(c, recs, dir, i);
    let ks = kept_indices(c, recs, dir);
    let j = choose|j: int| 0 <= j < ks.len() && #[trigger] ks[j] == i;
    assert(part[j].identity == id);
}

/// `part` is exactly what normalizing `recs` from source `c` keeps: for each
/// record that normalizes, in order, its identity, severity and timestamp,
/// and the record tagged with its source.
pub open spec fn kept_from(part: Seq<NormalizedRecord>, c: EndpointType, recs: Seq<TimedRecord>, dir: IdentityMapping) -> bool {
    let ks = kept_indices(c, recs, dir);
    &&& part.len() == ks.len()
    &&& forall|j: int|
        0 <= j < part.len() ==> {
            let r = recs[ks[j]];
            &&& record_outcome(c, r.record, dir) == Ok::<(u64, Severity), IncidentError>(
                ((#[trigger] part[j]).identity, part[j].severity),
            )
            &&& part[j].category == c
            &&& part[j].timestamp == r.timestamp
            &&& tagged(r.record, part[j].record, c)
        }
}

/// Normalizes the records of every batch and merges them by timestamp; a
/// later record replaces an earlier one with the same timestamp. The merged
/// set is the batches' kept records placed one by one, batch after batch,
/// and each batch's count of dropped records is what normalization refused.
pub fn merge(batches: Vec<Batch>, dir: &IdentityMapping) -> (r: MergeOutcome)
    requires
        dir.wf(),
    ensures
        r.merged.wf(),
        r.dropped@.len() == batches@.len(),
        exists|parts: Seq<Seq<NormalizedRecord>>|
            {
                &&& parts.len() == batches@.len()
                &&& r.merged@ == insert_all(Seq::empty(), concat(parts))
                &&& forall|k: int|
                    0 <= k < parts.len() ==> kept_from(#[trigger] parts[k], batches@[k].category, batches@[k].records@, *dir)
                        && r.dropped@[k] + parts[k].len() == batches@[k].records@.len()
            },
{
    let ghost orig = batches@;
    let mut batches = batches;
    let mut merged = MergedSet::new();
    let mut dropped: Vec<usize> = Vec::new();
    let ghost mut parts: Seq<Seq<NormalizedRecord>> = Seq::empty();
    let mut b: usize = 0;
    let nb = batches.len();
    while batches.len() > 0
        invariant
            merged.wf(),
            dir.wf(),
            nb == orig.len(),
            b + batches@.len() == nb,
            batches@ == orig.skip(b as int),
            dropped@.len() == b,
            parts.len() == b,
            merged@ == insert_all(Seq::empty(), concat(parts)),
            forall|k: int|
                0 <= k < b ==> kept_from(#[trigger] parts[k], orig[k].category, orig[k].records@, *dir) && dropped@[k]
                    + parts[k].len() == orig[k].records@.len(),
        decreases batches@.len(),
    {
        let batch = batches.remove(0);
        assert(batch == orig[b as int]);
        let category = batch.category;
        let ghost whole = batch.records@;
        let mut records = batch.records;
        let nr = records.len();
        let mut lost: usize = 0;
        let ghost mut cur: Seq<NormalizedRecord> = Seq::empty();
        let ghost mut used: int = 0;
        proof {
            assert(whole.skip(0) =~= whole);
            assert(concat(parts) + cur =~= concat(parts));
            assert(whole.take(0) =~= Seq::<TimedRecord>::empty());
        }
        while records.len() > 0
            invariant
                merged.wf(),
                dir.wf(),
                nr == whole.len(),
                0 <= used <= nr,
                records@ == whole.skip(used),
                lost + cur.len() == used,
                merged@ == insert_all(Seq::empty(), concat(parts) + cur),
                kept_from(cur, category, whole.take(used), *dir),
            decreases records@.len(),
        {
            let tr = records.remove(0);
            assert(tr == whole[used]);
            let ghost prev = concat(parts) + cur;
            let ghost pre = whole.take(used);
            let ghost post = whole.take(used + 1);
            let ghost raw = tr.record;
            proof {
                assert(post.drop_last() =~= pre);
                assert(post.last() == tr);
                lemma_kept_indices_bounds(category, pre, *dir);
            }
            match normalize_record(category, tr.record, tr.timestamp, dir) {
                Ok(n) => {
                    merged.insert(n);
                    proof {
                        assert(prev.push(n).drop_last() =~= prev);
                        assert(concat(parts) + cur.push(n) =~= prev.push(n));
                        let old_cur = cur;
                        cur = cur.push(n);
                        let ks = kept_indices(category, post, *dir);
                        assert(ks == kept_indices(category, pre, *dir).push(used));
                        assert forall|j: int| 0 <= j < cur.len() implies {
                            let r = post[ks[j]];
                            &&& record_outcome(category, r.record, *dir) == Ok::<(u64, Severity), IncidentError>(
                                ((#[trigger] cur[j]).identity, cur[j].severity),
                            )
                            &&& cur[j].category == category
                            &&& cur[j].timestamp == r.timestamp
                            &&& tagged(r.record, cur[j].record, category)
                        } by {
                            if j < old_cur.len() {
                                assert(cur[j] == old_cur[j]);
                                assert(post[ks[j]] == pre[ks[j]]);
                            } else {
                                assert(post[ks[j]] == tr);
                            }
                        }
                    }
                },
                Err(_) => {
                    lost = lost + 1;
                    proof {
                        assert(kept_indices(category, post, *dir) == kept_indices(category, pre, *dir));
                        let ks = kept_indices(category, post, *dir);
                        assert forall|j: int| 0 <= j < cur.len() implies {
                            let r = post[ks[j]];
                            &&& record_outcome(category, r.record, *dir) == Ok::<(u64, Severity), IncidentError>(
                                ((#[trigger] cur[j]).identity, cur[j].severity),
                            )
                            &&& cur[j].category == category
                            &&& cur[j].timestamp == r.timestamp
                            &&& tagged(r.record, cur[j].record, category)
                        } by {
                            assert(post[ks[j]] == pre[ks[j]]);
                        }
                    }
                },
            }
            proof {
                used = used + 1;
                assert(records@ =~= whole.skip(used));
            }
        }
        proof {
            assert(whole.take(used) =~= whole);
        }
        dropped.push(lost);
        proof {
            let old_parts = parts;
            parts = parts.push(cur);
            assert(parts.drop_last() =~= old_parts);
            assert(concat(parts) == concat(old_parts) + cur);
            assert(kept_from(cur, orig[b as int].category, orig[b as int].records@, *dir));
            assert forall|k: int| 0 <= k < b + 1 implies kept_from(#[trigger] parts[k], orig[k].category, orig[k].records@, *dir) && dropped@[k]
                + parts[k].len() == orig[k].records@.len() by {
                if k < b {
                    assert(parts[k] == old_parts[k]);
                }
            }
            assert(batches@ =~= orig.skip(b + 1));
        }
        b = b + 1;
    }
    MergeOutcome { merged, dropped }
}

proof fn lemma_insert_all_append(s: Seq<NormalizedRecord>, xs: Seq<NormalizedRecord>, ys: Seq<NormalizedRecord>)
    ensures
        insert_all(s, xs + ys) == insert_all(insert_all(s, xs), ys),
    decreases ys.len(),
{
    if ys.len() == 0 {
        assert(xs + ys =~= xs);
    } else {
        assert((xs + ys).drop_last() =~= xs + ys.drop_last());
        assert((xs + ys).last() == ys.last());
        lemma_insert_all_append(s, xs, ys.drop_last());
    }
}

proof fn lemma_concat_two(a: Seq<NormalizedRecord>, b: Seq<NormalizedRecord>)
    ensures
        concat(seq![a, b]) == a + b,
{
    let p = seq![a, b];
    let q = seq![a];
    assert(p.drop_last() =~= q);
    assert(p.last() == b);
    assert(q.drop_last() =~= Seq::<Seq<NormalizedRecord>>::empty());
    assert(q.last() == a);
    assert(concat(Seq::<Seq<NormalizedRecord>>::empty()) == Seq::<NormalizedRecord>::empty());
    assert(concat(q) == concat(q.drop_last()) + q.last());
    assert(Seq::<NormalizedRecord>::empty() + a =~= a);
    assert(concat(q) == a);
    assert(concat(p) == concat(p.drop_last()) + p.last());
}

/// The batches of two sources, merged in either order, give the same merged
/// records, provided no record of one shares a timestamp with a record of the
/// other; so any report that groups one merge groups the other.
pub proof fn lemma_batch_order_irrelevant(
    px: Seq<NormalizedRecord>,
    cx: EndpointType,
    rx: Seq<TimedRecord>,
    py: Seq<NormalizedRecord>,
    cy: EndpointType,
    ry: Seq<TimedRecord>,
    dir: IdentityMapping,
)
    requires
        kept_from(px, cx, rx, dir),
        kept_from(py, cy, ry, dir),
        forall|i: int, j: int| 0 <= i < rx.len() && 0 <= j < ry.len() ==> (#[trigger] rx[i]).timestamp != (#[trigger] ry[j]).timestamp,
    ensures
        insert_all(Seq::empty(), concat(seq![px, py])) == insert_all(Seq::empty(), concat(seq![py, px])),
{
    lemma_kept_indices_bounds(cx, rx, dir);
    lemma_kept_indices_bounds(cy, ry, dir);
    let kx = kept_indices(cx, rx, dir);
    let ky = kept_indices(cy, ry, dir);
    assert forall|i: int, j: int| 0 <= i < px.len() && 0 <= j < py.len() implies (#[trigger] px[i]).timestamp != (
    #[trigger] py[j]).timestamp by {
        assert(px[i].timestamp == rx[kx[i]].timestamp);
        assert(py[j].timestamp == ry[ky[j]].timestamp);
        assert(0 <= kx[i] < rx.len());
        assert(0 <= ky[j] < ry.len());
    }
    let e = Seq::<NormalizedRecord>::empty();
    lemma_concat_two(px, py);
    lemma_concat_two(py, px);
    lemma_insert_all_append(e, px, py);
    lemma_insert_all_append(e, py, px);
    lemma_merge_order_irrelevant(e, px, py);
}

} // verus!
