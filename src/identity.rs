use vstd::prelude::*;
use crate::json::{u64_of, value_as_u64};

verus! {

/// Why a run, or one record of it, could not be processed.
#[derive(Debug, Clone, Copy, PartialEq, Eq, Structural)]
pub enum IncidentError {
    /// An address or an identity occurs twice in the identity table.
    MalformedIdentityData,
    /// A record's identity field is missing, of the wrong kind, or not in the table.
    UnresolvableIdentity,
    /// A record's severity is none of `low`, `medium`, `high`, `critical`.
    UnknownSeverity,
}

/// A table from network address to numeric identity, and back.
pub struct IdentityMapping {
    entries: Vec<(String, u64)>,
}

/// The table as (address, identity) pairs.
pub open spec fn pairs_view(v: Seq<(String, u64)>) -> Seq<(Seq<char>, u64)> {
    v.map_values(|p: (String, u64)| (p.0@, p.1))
}

/// No address and no identity occurs twice.
pub open spec fn pairs_unique(v: Seq<(Seq<char>, u64)>) -> bool {
    forall|i: int, j: int|
        0 <= i < v.len() && 0 <= j < v.len() && i != j ==> (#[trigger] v[i]).0 != (#[trigger] v[j]).0 && v[i].1
            != v[j].1
}

impl IdentityMapping {
    pub closed spec fn view_pairs(self) -> Seq<(Seq<char>, u64)> {
        pairs_view(self.entries@)
    }

    /// Addresses and identities are each unique, so the two lookups are inverse.
    pub open spec fn wf(self) -> bool {
        pairs_unique(self.view_pairs())
    }

    /// The identity of an address, if the table holds it.
    pub open spec fn id_of(self, a: Seq<char>) -> Option<u64> {
        let v = self.view_pairs();
        if exists|i: int| 0 <= i < v.len() && (#[trigger] v[i]).0 == a {
            Some(v[choose|i: int| 0 <= i < v.len() && (#[trigger] v[i]).0 == a].1)
        } else {
            None
        }
    }

    /// The address of an identity, if the table holds it.
    pub open spec fn address_of(self, id: u64) -> Option<Seq<char>> {
        let v = self.view_pairs();
        if exists|i: int| 0 <= i < v.len() && (#[trigger] v[i]).1 == id {
            Some(v[choose|i: int| 0 <= i < v.len() && (#[trigger] v[i]).1 == id].0)
        } else {
            None
        }
    }

    /// An empty table, used when the identity source could not be read.
    pub fn empty() -> (r: IdentityMapping)
        ensures
            r.wf(),
            r.view_pairs().len() == 0,
    {
        IdentityMapping { entries: Vec::new() }
    }

    /// Number of addresses in the table.
    pub fn len(&self) -> (r: usize)
        ensures
            r == self.view_pairs().len(),
    {
        self.entries.len()
    }

    /// Looks up the identity of an address.
    pub fn ip_to_id(&self, address: &String) -> (r: Option<u64>)
        requires
            self.wf(),
        ensures
            r == self.id_of(address@),
    {
        let mut i: usize = 0;
        while i < self.entries.len()
            invariant
                self.wf(),
                i <= self.entries@.len(),
                forall|j: int| 0 <= j < i ==> (#[trigger] self.view_pairs()[j]).0 != address@,
            decreases self.entries@.len() - i,
        {
            if self.entries[i].0 == *address {
                proof {
                    let v = self.view_pairs();
                    assert(v[i as int] == (self.entries@[i as int].0@, self.entries@[i as int].1));
                    assert(v[i as int].0 == address@);
                    let c = choose|k: int| 0 <= k < v.len() && (#[trigger] v[k]).0 == address@;
                    if c != i as int {
                        assert(v[c].0 != v[i as int].0);
                    }
                }
                return Some(self.entries[i].1);
            }
            i = i + 1;
        }
        None
    }

    /// Looks up the address of an identity.
    pub fn id_to_ip(&self, id: u64) -> (r: Option<String>)
        requires
            self.wf(),
        ensures
            match r {
                Some(a) => self.address_of(id) == Some(a@),
                None => self.address_of(id).is_none(),
            },
    {
        let mut i: usize = 0;
        while i < self.entries.len()
            invariant
                self.wf(),
                i <= self.entries@.len(),
                forall|j: int| 0 <= j < i ==> (#[trigger] self.view_pairs()[j]).1 != id,
            decreases self.entries@.len() - i,
        {
            if self.entries[i].1 == id {
                proof {
                    let v = self.view_pairs();
                    assert(v[i as int] == (self.entries@[i as int].0@, self.entries@[i as int].1));
                    assert(v[i as int].1 == id);
                    let c = choose|k: int| 0 <= k < v.len() && (#[trigger] v[k]).1 == id;
                    if c != i as int {
                        assert(v[c].1 != v[i as int].1);
                    }
                }
                return Some(self.entries[i].0.clone());
            }
            i = i + 1;
        }
        None
    }
}

/// Whether the pair at `i` repeats the address or the identity of an earlier pair.
fn clashes_before(data: &Vec<(String, u64)>, i: usize) -> (r: bool)
    requires
        i < data@.len(),
    ensures
        r == exists|j: int|
            0 <= j < i && ((#[trigger] pairs_view(data@)[j]).0 == pairs_view(data@)[i as int].0
                || pairs_view(data@)[j].1 == pairs_view(data@)[i as int].1),
{
    let mut j: usize = 0;
    while j < i
        invariant
            j <= i,
            i < data@.len(),
            forall|k: int|
                0 <= k < j ==> !((#[trigger] pairs_view(data@)[k]).0 == pairs_view(data@)[i as int].0
                    || pairs_view(data@)[k].1 == pairs_view(data@)[i as int].1),
        decreases i - j,
    {
        assert(pairs_view(data@)[j as int] == (data@[j as int].0@, data@[j as int].1));
        assert(pairs_view(data@)[i as int] == (data@[i as int].0@, data@[i as int].1));
        if data[j].0 == data[i].0 || data[j].1 == data[i].1 {
            assert(pairs_view(data@)[j as int].0 == pairs_view(data@)[i as int].0 || pairs_view(data@)[j as int].1
                == pairs_view(data@)[i as int].1);
            return true;
        }
        j = j + 1;
    }
    false
}

/// Reads the identity of each address of a raw identity table; a value that
/// is not a non-negative integer makes the table `MalformedIdentityData`.
#[verifier::loop_isolation(false)]
pub fn identity_pairs(data: Vec<(String, serde_json::Value)>) -> (r: Result<Vec<(String, u64)>, IncidentError>)
    ensures
        r.is_ok() == forall|i: int| 0 <= i < data@.len() ==> (#[trigger] u64_of(data@[i].1)).is_some(),
        match r {
            Ok(p) => p@.len() == data@.len() && forall|i: int|
                0 <= i < p@.len() ==> (#[trigger] p@[i]).0 == data@[i].0 && Some(p@[i].1) == u64_of(data@[i].1),
            Err(e) => e == IncidentError::MalformedIdentityData,
        },
{
    let ghost orig = data@;
    let mut rest = data;
    let mut out: Vec<(String, u64)> = Vec::new();
    let ghost mut i: int = 0;
    proof {
        assert(orig.skip(0) =~= orig);
    }
    while rest.len() > 0
        invariant
            0 <= i <= orig.len(),
            rest@ == orig.skip(i),
            out@.len() == i,
            forall|j: int| 0 <= j < i ==> (#[trigger] out@[j]).0 == orig[j].0 && Some(out@[j].1) == u64_of(orig[j].1),
        decreases rest@.len(),
    {
        let (address, value) = rest.remove(0);
        assert(address == orig[i].0);
        assert(value == orig[i].1);
        match value_as_u64(&value) {
            Some(id) => out.push((address, id)),
            None => {
                assert(!(u64_of(orig[i].1)).is_some());
                assert(orig[i] == data@[i]);
                return Err(IncidentError::MalformedIdentityData);
            },
        }
        proof {
            i = i + 1;
            assert(rest@ =~= orig.skip(i));
        }
    }
    assert forall|j: int| 0 <= j < orig.len() implies (#[trigger] u64_of(orig[j].1)).is_some() by {
        assert(Some(out@[j].1) == u64_of(orig[j].1));
    }
    Ok(out)
}

/// Builds the two-way table from (address, identity) pairs. Fails with
/// `MalformedIdentityData` exactly when an address or an identity repeats.
pub fn to_identity_mappings(data: Vec<(String, u64)>) -> (r: Result<IdentityMapping, IncidentError>)
    ensures
        match r {
            Ok(m) => m.wf() && m.view_pairs() == pairs_view(data@),
            Err(e) => e == IncidentError::MalformedIdentityData && !pairs_unique(pairs_view(data@)),
        },
        r.is_ok() == pairs_unique(pairs_view(data@)),
{
    let mut i: usize = 0;
    while i < data.len()
        invariant
            i <= data@.len(),
            pairs_unique(pairs_view(data@).take(i as int)),
        decreases data@.len() - i,
    {
        if clashes_before(&data, i) {
            proof {
                let v = pairs_view(data@);
                let j = choose|j: int| 0 <= j < i && ((#[trigger] v[j]).0 == v[i as int].0 || v[j].1 == v[i as int].1);
                assert(v[j] == pairs_view(data@)[j]);
            }
            return Err(IncidentError::MalformedIdentityData);
        }
        proof {
            let v = pairs_view(data@);
            let t = v.take(i as int + 1);
            assert forall|a: int, b: int| 0 <= a < t.len() && 0 <= b < t.len() && a != b implies (#[trigger] t[a]).0
                != (#[trigger] t[b]).0 && t[a].1 != t[b].1 by {
                if a < i && b < i {
                    assert(v.take(i as int)[a] == t[a]);
                    assert(v.take(i as int)[b] == t[b]);
                } else if a == i {
                    assert(!((v[b]).0 == v[i as int].0 || v[b].1 == v[i as int].1));
                } else {
                    assert(!((v[a]).0 == v[i as int].0 || v[a].1 == v[i as int].1));
                }
            }
        }
        i = i + 1;
    }
    assert(pairs_view(data@).take(data@.len() as int) =~= pairs_view(data@));
    Ok(IdentityMapping { entries: data })
}

/// In a well-formed table, looking up an address's identity and then that
/// identity's address gives back the address, and the other way round.
pub proof fn lemma_lookups_inverse(m: IdentityMapping, a: Seq<char>, id: u64)
    requires
        m.wf(),
    ensures
        m.id_of(a) == Some(id) <==> m.address_of(id) == Some(a),
{
    let v = m.view_pairs();
    if m.id_of(a) == Some(id) {
        let i = choose|i: int| 0 <= i < v.len() && (#[trigger] v[i]).0 == a;
        assert(v[i].1 == id);
        let k = choose|k: int| 0 <= k < v.len() && (#[trigger] v[k]).1 == id;
        assert(k == i);
    }
    if m.address_of(id) == Some(a) {
        let k = choose|k: int| 0 <= k < v.len() && (#[trigger] v[k]).1 == id;
        assert(v[k].0 == a);
        let i = choose|i: int| 0 <= i < v.len() && (#[trigger] v[i]).0 == a;
        assert(k == i);
    }
}

} // verus!
