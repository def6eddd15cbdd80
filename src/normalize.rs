use vstd::prelude::*;
use crate::category::EndpointType;
use crate::identity::{IdentityMapping, IncidentError};
use crate::json::{fields, get_field, insert_text, str_of, u64_of, value_as_string, value_as_u64, Record};

verus! {

/// The four severity buckets of a report.
#[derive(Debug, Clone, Copy, PartialEq, Eq, Structural)]
pub enum Severity {
    Low,
    Medium,
    High,
    Critical,
}

impl Severity {
    /// The severity's name.
    pub open spec fn spec_name(self) -> Seq<char> {
        match self {
            Severity::Low => seq!['l', 'o', 'w'],
            Severity::Medium => seq!['m', 'e', 'd', 'i', 'u', 'm'],
            Severity::High => seq!['h', 'i', 'g', 'h'],
            Severity::Critical => seq!['c', 'r', 'i', 't', 'i', 'c', 'a', 'l'],
        }
    }

    /// The severity named exactly `s`, if any.
    pub open spec fn spec_parse(s: Seq<char>) -> Option<Severity> {
        if s == Severity::Low.spec_name() {
            Some(Severity::Low)
        } else if s == Severity::Medium.spec_name() {
            Some(Severity::Medium)
        } else if s == Severity::High.spec_name() {
            Some(Severity::High)
        } else if s == Severity::Critical.spec_name() {
            Some(Severity::Critical)
        } else {
            None
        }
    }

    /// Parses `low`, `medium`, `high` or `critical` (exact case).
    pub fn from_name(s: &str) -> (r: Option<Severity>)
        ensures
            r == Severity::spec_parse(s@),
    {
        let s = s.to_owned();
        proof {
            reveal_strlit("low");
            reveal_strlit("medium");
            reveal_strlit("high");
            reveal_strlit("critical");
        }
        let low = "low".to_owned();
        let medium = "medium".to_owned();
        let high = "high".to_owned();
        let critical = "critical".to_owned();
        assert(low@ =~= Severity::Low.spec_name());
        assert(medium@ =~= Severity::Medium.spec_name());
        assert(high@ =~= Severity::High.spec_name());
        assert(critical@ =~= Severity::Critical.spec_name());
        if s == low {
            Some(Severity::Low)
        } else if s == medium {
            Some(Severity::Medium)
        } else if s == high {
            Some(Severity::High)
        } else if s == critical {
            Some(Severity::Critical)
        } else {
            None
        }
    }
}

/// What a record holds in the field that names its subject.
#[derive(Debug, PartialEq, Eq)]
pub enum IdentityField {
    /// A numeric identity.
    Number(u64),
    /// A network address.
    Text(String),
    /// The field is missing or holds neither a number nor a string.
    Absent,
}

/// What an identity field holds, as values.
pub enum FieldValue {
    Number(u64),
    Text(Seq<char>),
    Absent,
}

impl View for IdentityField {
    type V = FieldValue;

    open spec fn view(&self) -> FieldValue {
        match self {
            IdentityField::Number(n) => FieldValue::Number(*n),
            IdentityField::Text(a) => FieldValue::Text(a@),
            IdentityField::Absent => FieldValue::Absent,
        }
    }
}

/// Sources whose records name the identity itself.
pub open spec fn names_identity(c: EndpointType) -> bool {
    c == EndpointType::Denial || c == EndpointType::Misuse || c == EndpointType::Unauthorized
}

/// Sources whose records name a network address.
pub open spec fn names_address(c: EndpointType) -> bool {
    c == EndpointType::Executable || c == EndpointType::Intrusion || c == EndpointType::Probing
}

/// The identity a record of source `c` resolves to, given its identity field.
pub open spec fn resolved(c: EndpointType, f: FieldValue, dir: IdentityMapping) -> Option<u64> {
    match f {
        FieldValue::Number(n) => if names_address(c) {
            None
        } else {
            Some(n)
        },
        FieldValue::Text(a) => if names_identity(c) {
            None
        } else {
            dir.id_of(a)
        },
        FieldValue::Absent => None,
    }
}

/// The identity field of a record of source `c` whose entries are `fs`:
/// a number for `denial`, `misuse` and `unauthorized`; a string for
/// `executable`, `intrusion` and `probing`; for `other`, a string if it is
/// one, else a number.
pub open spec fn read_field(c: EndpointType, fs: Map<Seq<char>, serde_json::Value>) -> FieldValue {
    let k = spec_identity_key(c);
    if !fs.contains_key(k) {
        FieldValue::Absent
    } else if names_identity(c) {
        match u64_of(fs[k]) {
            Some(n) => FieldValue::Number(n),
            None => FieldValue::Absent,
        }
    } else if names_address(c) {
        match str_of(fs[k]) {
            Some(a) => FieldValue::Text(a),
            None => FieldValue::Absent,
        }
    } else {
        match str_of(fs[k]) {
            Some(a) => FieldValue::Text(a),
            None => match u64_of(fs[k]) {
                Some(n) => FieldValue::Number(n),
                None => FieldValue::Absent,
            },
        }
    }
}

/// The text of a record's `priority` field, if it is a string.
pub open spec fn read_priority(fs: Map<Seq<char>, serde_json::Value>) -> Option<Seq<char>> {
    let k = seq!['p', 'r', 'i', 'o', 'r', 'i', 't', 'y'];
    if fs.contains_key(k) {
        str_of(fs[k])
    } else {
        None
    }
}

/// What normalizing a record with identity field `f` and priority text `p`
/// gives: the identity and severity, or the first error met.
pub open spec fn outcome(c: EndpointType, f: FieldValue, p: Option<Seq<char>>, dir: IdentityMapping) -> Result<
    (u64, Severity),
    IncidentError,
> {
    match resolved(c, f, dir) {
        None => Err(IncidentError::UnresolvableIdentity),
        Some(id) => match p {
            Some(t) => match Severity::spec_parse(t) {
                Some(sev) => Ok((id, sev)),
                None => Err(IncidentError::UnknownSeverity),
            },
            None => Err(IncidentError::UnknownSeverity),
        },
    }
}

/// What normalizing the raw record `r` of source `c` gives.
pub open spec fn record_outcome(c: EndpointType, r: Record, dir: IdentityMapping) -> Result<(u64, Severity), IncidentError> {
    outcome(c, read_field(c, fields(r)), read_priority(fields(r)), dir)
}

/// `after` is `before` with its `type` field set to the label of `c`.
pub open spec fn tagged(before: Record, after: Record, c: EndpointType) -> bool {
    let k = seq!['t', 'y', 'p', 'e'];
    &&& fields(after).dom() == fields(before).dom().insert(k)
    &&& str_of(fields(after)[k]) == Some(c.spec_label())
    &&& forall|x: Seq<char>| x != k && #[trigger] fields(before).contains_key(x) ==> fields(after)[x] == fields(before)[x]
}

/// The name of the field that carries a record's subject, per source.
pub open spec fn spec_identity_key(c: EndpointType) -> Seq<char> {
    match c {
        EndpointType::Denial => seq!['r', 'e', 'p', 'o', 'r', 't', 'e', 'd', '_', 'b', 'y'],
        EndpointType::Executable => seq!['m', 'a', 'c', 'h', 'i', 'n', 'e', '_', 'i', 'p'],
        EndpointType::Intrusion => seq!['i', 'n', 't', 'e', 'r', 'n', 'a', 'l', '_', 'i', 'p'],
        EndpointType::Misuse => seq!['e', 'm', 'p', 'l', 'o', 'y', 'e', 'e', '_', 'i', 'd'],
        EndpointType::Other => seq!['i', 'd', 'e', 'n', 't', 'i', 'f', 'i', 'e', 'r'],
        EndpointType::Probing => seq!['i', 'p'],
        EndpointType::Unauthorized => seq!['e', 'm', 'p', 'l', 'o', 'y', 'e', 'e', '_', 'i', 'd'],
    }
}

/// The name of the field that carries a record's subject.
pub fn identity_key(c: EndpointType) -> (r: &'static str)
    ensures
        r@ == spec_identity_key(c),
{
    match c {
        EndpointType::Denial => {
            proof { reveal_strlit("reported_by"); }
            "reported_by"
        },
        EndpointType::Executable => {
            proof { reveal_strlit("machine_ip"); }
            "machine_ip"
        },
        EndpointType::Intrusion => {
            proof { reveal_strlit("internal_ip"); }
            "internal_ip"
        },
        EndpointType::Misuse => {
            proof { reveal_strlit("employee_id"); }
            "employee_id"
        },
        EndpointType::Other => {
            proof { reveal_strlit("identifier"); }
            "identifier"
        },
        EndpointType::Probing => {
            proof { reveal_strlit("ip"); }
            "ip"
        },
        EndpointType::Unauthorized => {
            proof { reveal_strlit("employee_id"); }
            "employee_id"
        },
    }
}

/// Resolves a record's subject to an identity: directly for `denial`,
/// `misuse` and `unauthorized`; through the table for `executable`,
/// `intrusion` and `probing`; either way for `other`, by the field's kind.
pub fn resolve_identity(c: EndpointType, f: &IdentityField, dir: &IdentityMapping) -> (r: Result<u64, IncidentError>)
    requires
        dir.wf(),
    ensures
        r == match resolved(c, f@, *dir) {
            Some(id) => Ok::<u64, IncidentError>(id),
            None => Err(IncidentError::UnresolvableIdentity),
        },
{
    let direct = match c {
        EndpointType::Denial | EndpointType::Misuse | EndpointType::Unauthorized => true,
        _ => false,
    };
    let by_address = match c {
        EndpointType::Executable | EndpointType::Intrusion | EndpointType::Probing => true,
        _ => false,
    };
    match f {
        IdentityField::Number(n) => {
            if by_address {
                Err(IncidentError::UnresolvableIdentity)
            } else {
                Ok(*n)
            }
        },
        IdentityField::Text(a) => {
            if direct {
                Err(IncidentError::UnresolvableIdentity)
            } else {
                match dir.ip_to_id(a) {
                    Some(id) => Ok(id),
                    None => Err(IncidentError::UnresolvableIdentity),
                }
            }
        },
        IdentityField::Absent => Err(IncidentError::UnresolvableIdentity),
    }
}

/// Records of `denial`, `misuse` and `unauthorized` resolve to the number
/// they carry, without the table.
pub proof fn lemma_direct_identity(c: EndpointType, n: u64, dir: IdentityMapping)
    requires
        names_identity(c),
    ensures
        resolved(c, FieldValue::Number(n), dir) == Some(n),
{
}

/// Records of `executable`, `intrusion` and `probing` resolve to what the
/// table maps their address to, and fail when the table lacks it.
pub proof fn lemma_address_identity(c: EndpointType, a: Seq<char>, dir: IdentityMapping)
    requires
        names_address(c),
    ensures
        resolved(c, FieldValue::Text(a), dir) == dir.id_of(a),
{
}

/// A record of the `unauthorized` source, with the ordering key of its timestamp.
pub struct Unauthorized {
    pub priority: String,
    pub employee_id: u64,
    pub timestamp: u64,
}

/// A record with its source, resolved identity, severity and timestamp key.
pub struct NormalizedRecord {
    pub category: EndpointType,
    pub identity: u64,
    pub severity: Severity,
    pub timestamp: u64,
    pub record: Record,
}

/// The text of an optional string.
pub open spec fn text_of(p: Option<&str>) -> Option<Seq<char>> {
    match p {
        Some(t) => Some(t@),
        None => None,
    }
}

/// Normalizes one record from its already-read parts. Identity resolution is
/// tried first, then the severity; the record gets a `type` field naming its
/// source.
pub fn normalize(
    c: EndpointType,
    f: &IdentityField,
    priority: Option<&str>,
    timestamp: u64,
    record: Record,
    dir: &IdentityMapping,
) -> (r: Result<NormalizedRecord, IncidentError>)
    requires
        dir.wf(),
    ensures
        match r {
            Ok(n) => outcome(c, f@, text_of(priority), *dir) == Ok::<(u64, Severity), IncidentError>(
                (n.identity, n.severity),
            ) && n.category == c && n.timestamp == timestamp && tagged(record, n.record, c),
            Err(e) => outcome(c, f@, text_of(priority), *dir) == Err::<(u64, Severity), IncidentError>(e),
        },
{
    let identity = match resolve_identity(c, f, dir) {
        Ok(id) => id,
        Err(e) => return Err(e),
    };
    let severity = match priority {
        Some(p) => match Severity::from_name(p) {
            Some(s) => s,
            None => return Err(IncidentError::UnknownSeverity),
        },
        None => return Err(IncidentError::UnknownSeverity),
    };
    let mut record = record;
    proof {
        reveal_strlit("type");
    }
    let ghost before = record;
    let key = "type".to_owned();
    let label = c.label().to_owned();
    assert(key@ =~= seq!['t', 'y', 'p', 'e']);
    insert_text(&mut record, key, label);
    assert(tagged(before, record, c));
    Ok(NormalizedRecord { category: c, identity, severity, timestamp, record })
}

/// Reads the identity field of a record of source `c`.
pub fn identity_field(c: EndpointType, record: &Record) -> (r: IdentityField)
    ensures
        r@ == read_field(c, fields(*record)),
{
    let value = match get_field(record, identity_key(c)) {
        Some(v) => v,
        None => return IdentityField::Absent,
    };
    match c {
        EndpointType::Denial | EndpointType::Misuse | EndpointType::Unauthorized => match value_as_u64(value) {
            Some(n) => IdentityField::Number(n),
            None => IdentityField::Absent,
        },
        EndpointType::Executable | EndpointType::Intrusion | EndpointType::Probing => match value_as_string(value) {
            Some(a) => IdentityField::Text(a),
            None => IdentityField::Absent,
        },
        EndpointType::Other => match value_as_string(value) {
            Some(a) => IdentityField::Text(a),
            None => match value_as_u64(value) {
                Some(n) => IdentityField::Number(n),
                None => IdentityField::Absent,
            },
        },
    }
}

/// Normalizes one raw record of source `c` whose timestamp key is `timestamp`.
pub fn normalize_record(c: EndpointType, record: Record, timestamp: u64, dir: &IdentityMapping) -> (r: Result<
    NormalizedRecord,
    IncidentError,
>)
    requires
        dir.wf(),
    ensures
        match r {
            Ok(n) => record_outcome(c, record, *dir) == Ok::<(u64, Severity), IncidentError>((n.identity, n.severity))
                && n.category == c && n.timestamp == timestamp && tagged(record, n.record, c),
            Err(e) => record_outcome(c, record, *dir) == Err::<(u64, Severity), IncidentError>(e),
        },
{
    let f = identity_field(c, &record);
    proof {
        reveal_strlit("priority");
    }
    let priority = match get_field(&record, "priority") {
        Some(v) => value_as_string(v),
        None => None,
    };
    assert("priority"@ =~= seq!['p', 'r', 'i', 'o', 'r', 'i', 't', 'y']);
    assert(priority matches Some(p) ==> read_priority(fields(record)) == Some(p@));
    assert(priority is None ==> read_priority(fields(record)) is None);
    match priority {
        Some(p) => normalize(c, &f, Some(p.as_str()), timestamp, record, dir),
        None => normalize(c, &f, None, timestamp, record, dir),
    }
}

} // verus!
