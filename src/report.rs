use vstd::prelude::*;
use crate::json::Record;
use crate::identity::IdentityMapping;
use crate::merge::{ascending, concat, insert_all, kept_from, merge, Batch, MergedSet};
use crate::normalize::{NormalizedRecord, Severity};

verus! {

/// One severity bucket: its records, and how many there are.
pub struct IncidentResponse {
    pub count: u64,
    pub incidents: Vec<Record>,
}

/// The four severity buckets of one identity.
pub struct IdentityIncidents {
    pub identity: u64,
    pub low: IncidentResponse,
    pub medium: IncidentResponse,
    pub high: IncidentResponse,
    pub critical: IncidentResponse,
}

/// Incidents grouped by identity, then by severity.
pub struct IncidentReport {
    pub identities: Vec<IdentityIncidents>,
}

/// The bucket of `e` for severity `sev`.
pub open spec fn bucket(e: IdentityIncidents, sev: Severity) -> IncidentResponse {
    match sev {
        Severity::Low => e.low,
        Severity::Medium => e.medium,
        Severity::High => e.high,
        Severity::Critical => e.critical,
    }
}

/// The records of `s` with identity `id` and severity `sev`, in order.
pub open spec fn records_of(s: Seq<NormalizedRecord>, id: u64, sev: Severity) -> Seq<Record>
    decreases s.len(),
{
    if s.len() == 0 {
        Seq::empty()
    } else if s.last().identity == id && s.last().severity == sev {
        records_of(s.drop_last(), id, sev).push(s.last().record)
    } else {
        records_of(s.drop_last(), id, sev)
    }
}

/// Some record of `s` has identity `id`.
pub open spec fn holds_identity(s: Seq<NormalizedRecord>, id: u64) -> bool {
    exists|j: int| 0 <= j < s.len() && (#[trigger] s[j]).identity == id
}

/// The bucket holds `records`, and its count is their number.
pub open spec fn bucket_holds(b: IncidentResponse, records: Seq<Record>) -> bool {
    b.incidents@ == records && b.count == records.len()
}

/// `r` groups the records of `s`: one entry per identity that occurs in
/// `s`, and each of its four buckets holds exactly that identity's records of
/// that severity, in the order of `s`.
pub open spec fn groups(r: Seq<IdentityIncidents>, s: Seq<NormalizedRecord>) -> bool {
    &&& forall|k: int, l: int|
        0 <= k < r.len() && 0 <= l < r.len() && k != l ==> (#[trigger] r[k]).identity != (#[trigger] r[l]).identity
    &&& forall|k: int| 0 <= k < r.len() ==> holds_identity(s, (#[trigger] r[k]).identity)
    &&& forall|j: int| 0 <= j < s.len() ==> exists|k: int| 0 <= k < r.len() && (#[trigger] r[k]).identity == (
    #[trigger] s[j]).identity
    &&& forall|k: int, sev: Severity|
        0 <= k < r.len() ==> bucket_holds(#[trigger] bucket(r[k], sev), records_of(s, r[k].identity, sev))
}

proof fn lemma_records_of_push(p: Seq<NormalizedRecord>, n: NormalizedRecord, id: u64, sev: Severity)
    ensures
        records_of(p.push(n), id, sev) == if n.identity == id && n.severity == sev {
            records_of(p, id, sev).push(n.record)
        } else {
            records_of(p, id, sev)
        },
{
    assert(p.push(n).drop_last() =~= p);
}

proof fn lemma_records_of_absent(s: Seq<NormalizedRecord>, id: u64, sev: Severity)
    requires
        !holds_identity(s, id),
    ensures
        records_of(s, id, sev) == Seq::<Record>::empty(),
    decreases s.len(),
{
    if s.len() > 0 {
        let d = s.drop_last();
        assert(!holds_identity(d, id)) by {
            if holds_identity(d, id) {
                let j = choose|j: int| 0 <= j < d.len() && (#[trigger] d[j]).identity == id;
                assert(s[j] == d[j]);
            }
        }
        assert(s[s.len() - 1] == s.last());
        lemma_records_of_absent(d, id, sev);
    }
}

fn empty_bucket() -> (r: IncidentResponse)
    ensures
        bucket_holds(r, Seq::empty()),
{
    IncidentResponse { count: 0, incidents: Vec::new() }
}

fn add_to_bucket(b: &mut IncidentResponse, record: Record)
    requires
        old(b).count == old(b).incidents@.len(),
    ensures
        final(b).incidents@ == old(b).incidents@.push(record),
        final(b).count == final(b).incidents@.len(),
{
    b.incidents.push(record);
    b.count = b.incidents.len() as u64;
}

fn find_identity(r: &Vec<IdentityIncidents>, id: u64) -> (k: Option<usize>)
    ensures
        match k {
            Some(k) => k < r@.len() && r@[k as int].identity == id,
            None => forall|l: int| 0 <= l < r@.len() ==> (#[trigger] r@[l]).identity != id,
        },
{
    let mut i: usize = 0;
    while i < r.len()
        invariant
            i <= r@.len(),
            forall|l: int| 0 <= l < i ==> (#[trigger] r@[l]).identity != id,
        decreases r@.len() - i,
    {
        if r[i].identity == id {
            return Some(i);
        }
        i = i + 1;
    }
    None
}

fn add_record(r: &mut Vec<IdentityIncidents>, k: usize, n: NormalizedRecord)
    requires
        k < old(r)@.len(),
        forall|sev: Severity| #[trigger] bucket(old(r)@[k as int], sev).count == bucket(old(r)@[k as int], sev).incidents@.len(),
    ensures
        final(r)@.len() == old(r)@.len(),
        forall|l: int| 0 <= l < old(r)@.len() && l != k ==> #[trigger] final(r)@[l] == old(r)@[l],
        final(r)@[k as int].identity == old(r)@[k as int].identity,
        forall|sev: Severity| sev != n.severity ==> #[trigger] bucket(final(r)@[k as int], sev) == bucket(old(r)@[k as int], sev),
        bucket(final(r)@[k as int], n.severity).incidents@ == bucket(old(r)@[k as int], n.severity).incidents@.push(n.record),
        bucket(final(r)@[k as int], n.severity).count == bucket(final(r)@[k as int], n.severity).incidents@.len(),
{
    let e = &mut r[k];
    assert(bucket(*e, Severity::Low).count == bucket(*e, Severity::Low).incidents@.len());
    assert(bucket(*e, Severity::Medium).count == bucket(*e, Severity::Medium).incidents@.len());
    assert(bucket(*e, Severity::High).count == bucket(*e, Severity::High).incidents@.len());
    assert(bucket(*e, Severity::Critical).count == bucket(*e, Severity::Critical).incidents@.len());
    match n.severity {
        Severity::Low => add_to_bucket(&mut e.low, n.record),
        Severity::Medium => add_to_bucket(&mut e.medium, n.record),
        Severity::High => add_to_bucket(&mut e.high, n.record),
        Severity::Critical => add_to_bucket(&mut e.critical, n.record),
    }
}

/// Groups the merged records by identity and severity. Every identity that
/// occurs gets all four buckets, empty ones included.
pub fn aggregate(merged: MergedSet) -> (r: IncidentReport)
    ensures
        groups(r.identities@, merged@),
{
    let ghost s = merged@;
    let mut rest = merged.into_records();
    let mut out: Vec<IdentityIncidents> = Vec::new();
    let ghost mut i: int = 0;
    proof {
        assert(s.skip(0) =~= s);
        assert(s.take(0) =~= Seq::<NormalizedRecord>::empty());
    }
    while rest.len() > 0
        invariant
            0 <= i <= s.len(),
            rest@ == s.skip(i),
            groups(out@, s.take(i)),
        decreases rest@.len(),
    {
        let n = rest.remove(0);
        let ghost p = s.take(i);
        let ghost q = s.take(i + 1);
        proof {
            assert(n == s[i]);
            assert(q =~= p.push(n));
        }
        let ghost start = out@;
        let k = match find_identity(&out, n.identity) {
            Some(k) => k,
            None => {
                proof {
                    assert(!holds_identity(p, n.identity)) by {
                        if holds_identity(p, n.identity) {
                            let j = choose|j: int| 0 <= j < p.len() && (#[trigger] p[j]).identity == n.identity;
                            assert(exists|k: int| 0 <= k < out@.len() && (#[trigger] out@[k]).identity == p[j].identity);
                        }
                    }
                    assert forall|sev: Severity| #[trigger] records_of(p, n.identity, sev) == Seq::<Record>::empty() by {
                        lemma_records_of_absent(p, n.identity, sev);
                    }
                }
                let fresh = IdentityIncidents {
                    identity: n.identity,
                    low: empty_bucket(),
                    medium: empty_bucket(),
                    high: empty_bucket(),
                    critical: empty_bucket(),
                };
                out.push(fresh);
                proof {
                    assert forall|a: int| 0 <= a < start.len() implies #[trigger] out@[a] == start[a] by {}

                    let o = out@;
                    let m = o.len() - 1;
                    assert forall|kk: int, sev: Severity| 0 <= kk < o.len() implies bucket_holds(
                        #[trigger] bucket(o[kk], sev),
                        records_of(p, o[kk].identity, sev),
                    ) by {
                        if kk == m {
                            assert(records_of(p, n.identity, sev) == Seq::<Record>::empty());
                            match sev {
                                Severity::Low => {},
                                Severity::Medium => {},
                                Severity::High => {},
                                Severity::Critical => {},
                            }
                        }
                    }
                }
                out.len() - 1
            },
        };
        let ghost before = out@;
        add_record(&mut out, k, n);
        proof {
            let o = out@;
            assert forall|a: int, b: int| 0 <= a < o.len() && 0 <= b < o.len() && a != b implies (
            #[trigger] o[a]).identity != (#[trigger] o[b]).identity by {
                assert(o[a].identity == before[a].identity);
                assert(o[b].identity == before[b].identity);
            }
            assert forall|a: int| 0 <= a < o.len() implies holds_identity(q, (#[trigger] o[a]).identity) by {
                assert(o[a].identity == before[a].identity);
                if a == k as int {
                    assert(q[i] == n);
                } else if holds_identity(p, before[a].identity) {
                    let j = choose|j: int| 0 <= j < p.len() && (#[trigger] p[j]).identity == before[a].identity;
                    assert(q[j] == p[j]);
                }
            }
            assert forall|j: int| 0 <= j < q.len() implies exists|a: int| 0 <= a < o.len() && (#[trigger] o[a]).identity == (
            #[trigger] q[j]).identity by {
                if j < i {
                    assert(q[j] == p[j]);
                    assert(exists|a: int| 0 <= a < start.len() && (#[trigger] start[a]).identity == (#[trigger] p[j]).identity);
                    let a = choose|a: int| 0 <= a < start.len() && (#[trigger] start[a]).identity == p[j].identity;
                    assert(before.len() >= start.len());
                    assert(before[a] == start[a]);
                    assert(o[a].identity == before[a].identity);
                } else {
                    assert(o[k as int].identity == q[j].identity);
                }
            }
            assert forall|a: int, sev: Severity| 0 <= a < o.len() implies bucket_holds(
                #[trigger] bucket(o[a], sev),
                records_of(q, o[a].identity, sev),
            ) by {
                lemma_records_of_push(p, n, o[a].identity, sev);
                assert(o[a].identity == before[a].identity);
                if a != k as int {
                    assert(o[a] == before[a]);
                }
            }
        }
        proof {
            i = i + 1;
            assert(rest@ =~= s.skip(i));
        }
    }
    proof {
        assert(s.take(i) =~= s);
    }
    IncidentReport { identities: out }
}

/// The whole aggregation: normalizes and merges every batch, then groups the
/// merged records. Also returns, per batch, how many records were dropped
/// because their identity or severity could not be read.
pub fn to_incident_results(identity_mapping: &IdentityMapping, batches: Vec<Batch>) -> (r: (IncidentReport, Vec<usize>))
    requires
        identity_mapping.wf(),
    ensures
        r.1@.len() == batches@.len(),
        exists|parts: Seq<Seq<NormalizedRecord>>|
            {
                &&& parts.len() == batches@.len()
                &&& ascending(insert_all(Seq::empty(), concat(parts)))
                &&& groups(r.0.identities@, insert_all(Seq::empty(), concat(parts)))
                &&& forall|k: int|
                    0 <= k < parts.len() ==> kept_from(#[trigger] parts[k], batches@[k].category, batches@[k].records@, *identity_mapping) && r.1@[k] + parts[k].len()
                        == batches@[k].records@.len()
            },
{
    let outcome = merge(batches, identity_mapping);
    let report = aggregate(outcome.merged);
    (report, outcome.dropped)
}

} // verus!
