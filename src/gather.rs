use vstd::prelude::*;
use crate::identity::{pairs_unique, pairs_view, to_identity_mappings, IdentityMapping, IncidentError};
use crate::merge::Batch;

verus! {

/// Why one source could not be read.
#[derive(Debug)]
pub struct FetchError {
    pub message: String,
}

/// The batches of the sources that were read, in order.
pub open spec fn fetched_batches(s: Seq<Result<Batch, FetchError>>) -> Seq<Batch>
    decreases s.len(),
{
    if s.len() == 0 {
        Seq::empty()
    } else {
        match s.last() {
            Ok(b) => fetched_batches(s.drop_last()).push(b),
            Err(_) => fetched_batches(s.drop_last()),
        }
    }
}

/// How many sources could not be read.
pub open spec fn failures(s: Seq<Result<Batch, FetchError>>) -> nat
    decreases s.len(),
{
    if s.len() == 0 {
        0
    } else {
        match s.last() {
            Ok(_) => failures(s.drop_last()),
            Err(_) => failures(s.drop_last()) + 1,
        }
    }
}

/// Keeps the batch of every source that was read and counts the others; a
/// failed source leaves no trace among the batches.
pub fn gather_batches(outcomes: Vec<Result<Batch, FetchError>>) -> (r: (Vec<Batch>, usize))
    ensures
        r.0@ == fetched_batches(outcomes@),
        r.1 == failures(outcomes@),
{
    let ghost orig = outcomes@;
    let n = outcomes.len();
    let mut rest = outcomes;
    let mut batches: Vec<Batch> = Vec::new();
    let mut failed: usize = 0;
    let ghost mut i: int = 0;
    proof {
        assert(orig.skip(0) =~= orig);
        assert(orig.take(0) =~= Seq::<Result<Batch, FetchError>>::empty());
    }
    while rest.len() > 0
        invariant
            0 <= i <= orig.len(),
            rest@ == orig.skip(i),
            batches@ == fetched_batches(orig.take(i)),
            failed == failures(orig.take(i)),
            failed <= i,
            orig.len() == n,
        decreases rest@.len(),
    {
        let o = rest.remove(0);
        proof {
            assert(o == orig[i]);
            assert(orig.take(i + 1).drop_last() =~= orig.take(i));
            assert(orig.take(i + 1).last() == o);
        }
        match o {
            Ok(b) => batches.push(b),
            Err(_) => {
                failed = failed + 1;
            },
        }
        proof {
            i = i + 1;
            assert(rest@ =~= orig.skip(i));
        }
    }
    proof {
        assert(orig.take(i) =~= orig);
    }
    (batches, failed)
}

/// A failed source takes nothing from the others: the batches gathered with
/// it are those gathered without it.
pub proof fn lemma_failure_isolated(s: Seq<Result<Batch, FetchError>>, k: int)
    requires
        0 <= k < s.len(),
        s[k] is Err,
    ensures
        fetched_batches(s) == fetched_batches(s.remove(k)),
    decreases s.len(),
{
    if k == s.len() - 1 {
        assert(s.remove(k) =~= s.drop_last());
    } else {
        let d = s.drop_last();
        assert(s.remove(k).drop_last() =~= d.remove(k));
        assert(s.remove(k).last() == s.last());
        lemma_failure_isolated(d, k);
    }
}

/// The identity table of a run: built from the fetched pairs, or empty when
/// the identity source could not be read. Repeated addresses or identities
/// in fetched pairs fail with `MalformedIdentityData`.
pub fn directory_or_empty(fetched: Result<Vec<(String, u64)>, FetchError>) -> (r: Result<IdentityMapping, IncidentError>)
    ensures
        match fetched {
            Err(_) => r matches Ok(m) && m.wf() && m.view_pairs().len() == 0,
            Ok(d) => match r {
                Ok(m) => m.wf() && m.view_pairs() == pairs_view(d@) && pairs_unique(pairs_view(d@)),
                Err(e) => e == IncidentError::MalformedIdentityData && !pairs_unique(pairs_view(d@)),
            },
        },
{
    match fetched {
        Ok(d) => to_identity_mappings(d),
        Err(_) => Ok(IdentityMapping::empty()),
    }
}

} // verus!
