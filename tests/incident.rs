use incident::{
    aggregate, identity_field, merge, normalize_record, resolve_identity, to_identity_mappings, to_incident_results,
    Batch, EndpointType, IdentityField, IdentityIncidents, IdentityMapping, IncidentError, MergedSet, Severity,
    TimedRecord,
};
use serde_json::Value;

fn record(fields: &[(&str, Value)]) -> serde_json::Map<String, Value> {
    let mut m = serde_json::Map::new();
    for (k, v) in fields {
        m.insert(k.to_string(), v.clone());
    }
    m
}

fn table(pairs: &[(&str, u64)]) -> IdentityMapping {
    to_identity_mappings(pairs.iter().map(|(a, id)| (a.to_string(), *id)).collect()).unwrap()
}

fn find(report: &incident::IncidentReport, id: u64) -> &IdentityIncidents {
    report.identities.iter().find(|e| e.identity == id).unwrap()
}

#[test]
fn enum_test() {
    assert_eq!("denial".parse(), Ok(EndpointType::Denial));
    assert_eq!("executable".parse(), Ok(EndpointType::Executable));
    assert_eq!("Intrusion".parse(), Ok(EndpointType::Intrusion));
    assert_eq!("misuse".parse(), Ok(EndpointType::Misuse));
    assert_eq!("other".parse(), Ok(EndpointType::Other));
    assert_eq!("probing".parse(), Ok(EndpointType::Probing));
    assert_eq!("unauthorized".parse(), Ok(EndpointType::Unauthorized));
    assert_eq!("something".parse::<EndpointType>(), Err(()));
}

#[test]
fn category_names_ignore_case() {
    assert_eq!(EndpointType::from_name("PROBING"), Some(EndpointType::Probing));
    assert_eq!(EndpointType::from_name("UnAuthorized"), Some(EndpointType::Unauthorized));
    assert_eq!(EndpointType::from_name(""), None);
    assert_eq!(EndpointType::from_name("denials"), None);
    assert_eq!(EndpointType::Probing.label(), "probing");
}

#[test]
fn severity_names() {
    assert_eq!(Severity::from_name("low"), Some(Severity::Low));
    assert_eq!(Severity::from_name("critical"), Some(Severity::Critical));
    assert_eq!(Severity::from_name("High"), None);
    assert_eq!(Severity::from_name("urgent"), None);
}

#[test]
fn identity_table_lookups_are_inverse() {
    let m = table(&[("10.0.0.5", 42), ("10.0.0.6", 7)]);
    assert_eq!(m.len(), 2);
    for a in ["10.0.0.5", "10.0.0.6"] {
        let id = m.ip_to_id(&a.to_string()).unwrap();
        assert_eq!(m.id_to_ip(id), Some(a.to_string()));
    }
    assert_eq!(m.ip_to_id(&"10.0.0.9".to_string()), None);
    assert_eq!(m.id_to_ip(8), None);
}

#[test]
fn identity_table_rejects_duplicates() {
    let dup_address = vec![("10.0.0.5".to_string(), 1), ("10.0.0.5".to_string(), 2)];
    assert_eq!(to_identity_mappings(dup_address).err(), Some(IncidentError::MalformedIdentityData));
    let dup_id = vec![("10.0.0.5".to_string(), 1), ("10.0.0.6".to_string(), 1)];
    assert_eq!(to_identity_mappings(dup_id).err(), Some(IncidentError::MalformedIdentityData));
    assert!(to_identity_mappings(vec![]).is_ok());
}

#[test]
fn direct_categories_use_the_field() {
    let m = table(&[("10.0.0.5", 42)]);
    for c in [EndpointType::Denial, EndpointType::Misuse, EndpointType::Unauthorized] {
        assert_eq!(resolve_identity(c, &IdentityField::Number(9), &m), Ok(9));
        assert_eq!(
            resolve_identity(c, &IdentityField::Text("10.0.0.5".to_string()), &m),
            Err(IncidentError::UnresolvableIdentity)
        );
    }
}

#[test]
fn address_categories_use_the_table() {
    let m = table(&[("10.0.0.5", 42)]);
    for c in [EndpointType::Executable, EndpointType::Intrusion, EndpointType::Probing] {
        assert_eq!(resolve_identity(c, &IdentityField::Text("10.0.0.5".to_string()), &m), Ok(42));
        assert_eq!(
            resolve_identity(c, &IdentityField::Text("10.0.0.6".to_string()), &m),
            Err(IncidentError::UnresolvableIdentity)
        );
        assert_eq!(resolve_identity(c, &IdentityField::Absent, &m), Err(IncidentError::UnresolvableIdentity));
    }
    let other = EndpointType::Other;
    assert_eq!(resolve_identity(other, &IdentityField::Number(5), &m), Ok(5));
    assert_eq!(resolve_identity(other, &IdentityField::Text("10.0.0.5".to_string()), &m), Ok(42));
}

#[test]
fn identity_field_reads_json() {
    let r = record(&[("reported_by", Value::from(17u64)), ("ip", Value::from("10.0.0.5"))]);
    assert_eq!(identity_field(EndpointType::Denial, &r), IdentityField::Number(17));
    assert_eq!(identity_field(EndpointType::Probing, &r), IdentityField::Text("10.0.0.5".to_string()));
    assert_eq!(identity_field(EndpointType::Misuse, &r), IdentityField::Absent);
    let o = record(&[("identifier", Value::from(3u64))]);
    assert_eq!(identity_field(EndpointType::Other, &o), IdentityField::Number(3));
}

#[test]
fn normalize_errors() {
    let m = table(&[("10.0.0.5", 42)]);
    let unknown = record(&[("ip", Value::from("10.0.0.9")), ("priority", Value::from("high"))]);
    assert_eq!(normalize_record(EndpointType::Probing, unknown, 1, &m).err(), Some(IncidentError::UnresolvableIdentity));
    let bad = record(&[("ip", Value::from("10.0.0.5")), ("priority", Value::from("urgent"))]);
    assert_eq!(normalize_record(EndpointType::Probing, bad, 1, &m).err(), Some(IncidentError::UnknownSeverity));
    let ok = record(&[("ip", Value::from("10.0.0.5")), ("priority", Value::from("high"))]);
    let n = normalize_record(EndpointType::Probing, ok, 1, &m).ok().unwrap();
    assert_eq!(n.identity, 42);
    assert_eq!(n.severity, Severity::High);
    assert_eq!(n.record.get("type"), Some(&Value::from("probing")));
}

#[test]
fn end_to_end_probing_example() {
    let m = table(&[("10.0.0.5", 42)]);
    let r = record(&[("ip", Value::from("10.0.0.5")), ("priority", Value::from("high")), ("timestamp", Value::from(100.0))]);
    let batches = vec![Batch { category: EndpointType::Probing, records: vec![TimedRecord { timestamp: 100, record: r }] }];
    let (report, dropped) = to_incident_results(&m, batches);
    assert_eq!(dropped, vec![0]);
    assert_eq!(report.identities.len(), 1);
    let e = find(&report, 42);
    assert_eq!(e.high.count, 1);
    assert_eq!(e.high.incidents.len(), 1);
    assert_eq!(e.high.incidents[0].get("type"), Some(&Value::from("probing")));
    assert_eq!(e.high.incidents[0].get("ip"), Some(&Value::from("10.0.0.5")));
    for b in [&e.low, &e.medium, &e.critical] {
        assert_eq!(b.count, 0);
        assert!(b.incidents.is_empty());
    }
}

#[test]
fn same_timestamp_keeps_later_record() {
    let m = table(&[]);
    let first = record(&[("reported_by", Value::from(1u64)), ("priority", Value::from("low"))]);
    let second = record(&[("employee_id", Value::from(2u64)), ("priority", Value::from("medium"))]);
    let batches = vec![
        Batch { category: EndpointType::Denial, records: vec![TimedRecord { timestamp: 100, record: first }] },
        Batch { category: EndpointType::Misuse, records: vec![TimedRecord { timestamp: 100, record: second }] },
    ];
    let outcome = merge(batches, &m);
    assert_eq!(outcome.merged.len(), 1);
    let report = aggregate(outcome.merged);
    assert_eq!(report.identities.len(), 1);
    assert_eq!(find(&report, 2).medium.count, 1);
}

#[test]
fn missing_category_does_not_block_others() {
    let m = table(&[("10.0.0.5", 42)]);
    let r = record(&[("employee_id", Value::from(5u64)), ("priority", Value::from("critical"))]);
    let batches = vec![Batch { category: EndpointType::Unauthorized, records: vec![TimedRecord { timestamp: 3, record: r }] }];
    let (report, _) = to_incident_results(&m, batches);
    assert_eq!(find(&report, 5).critical.count, 1);
}

fn two_batches() -> (Batch, Batch) {
    let a = record(&[("reported_by", Value::from(1u64)), ("priority", Value::from("low"))]);
    let b = record(&[("reported_by", Value::from(1u64)), ("priority", Value::from("low"))]);
    let c = record(&[("internal_ip", Value::from("10.0.0.5")), ("priority", Value::from("low"))]);
    (
        Batch { category: EndpointType::Denial, records: vec![TimedRecord { timestamp: 10, record: a }, TimedRecord { timestamp: 30, record: b }] },
        Batch { category: EndpointType::Intrusion, records: vec![TimedRecord { timestamp: 20, record: c }] },
    )
}

#[test]
fn batch_order_does_not_change_report() {
    let m = table(&[("10.0.0.5", 1)]);
    let (x, y) = two_batches();
    let (r1, _) = to_incident_results(&m, vec![x, y]);
    let (x, y) = two_batches();
    let (r2, _) = to_incident_results(&m, vec![y, x]);
    let types = |r: &incident::IncidentReport| -> Vec<Value> {
        find(r, 1).low.incidents.iter().map(|i| i.get("type").unwrap().clone()).collect()
    };
    assert_eq!(types(&r1), vec![Value::from("denial"), Value::from("intrusion"), Value::from("denial")]);
    assert_eq!(types(&r1), types(&r2));
}

#[test]
fn every_identity_has_four_counted_buckets() {
    let m = table(&[]);
    let mut records = Vec::new();
    for (t, id, p) in [(1u64, 1u64, "low"), (2, 2, "high"), (3, 1, "high"), (4, 1, "high"), (5, 3, "bogus")] {
        records.push(TimedRecord { timestamp: t, record: record(&[("reported_by", Value::from(id)), ("priority", Value::from(p))]) });
    }
    let (report, dropped) = to_incident_results(&m, vec![Batch { category: EndpointType::Denial, records }]);
    assert_eq!(dropped, vec![1]);
    assert_eq!(report.identities.len(), 2);
    for e in &report.identities {
        for b in [&e.low, &e.medium, &e.high, &e.critical] {
            assert_eq!(b.count as usize, b.incidents.len());
        }
    }
    assert_eq!(find(&report, 1).high.count, 2);
    assert_eq!(find(&report, 1).low.count, 1);
    assert_eq!(find(&report, 2).high.count, 1);
}

#[test]
fn merged_set_orders_by_timestamp() {
    let m = table(&[]);
    let mut s = MergedSet::new();
    for t in [30u64, 10, 20] {
        let r = record(&[("reported_by", Value::from(t)), ("priority", Value::from("low"))]);
        s.insert(normalize_record(EndpointType::Denial, r, t, &m).ok().unwrap());
    }
    let ts: Vec<u64> = s.into_records().iter().map(|n| n.timestamp).collect();
    assert_eq!(ts, vec![10, 20, 30]);
}

#[test]
fn failed_source_is_skipped() {
    let r = record(&[("employee_id", Value::from(5u64)), ("priority", Value::from("low"))]);
    let outcomes = vec![
        Err(incident::FetchError { message: "denial unreachable".to_string() }),
        Ok(Batch { category: EndpointType::Misuse, records: vec![TimedRecord { timestamp: 1, record: r }] }),
        Err(incident::FetchError { message: "other unreachable".to_string() }),
    ];
    let (batches, failed) = incident::gather_batches(outcomes);
    assert_eq!(failed, 2);
    assert_eq!(batches.len(), 1);
    assert_eq!(batches[0].category, EndpointType::Misuse);
    let (report, _) = to_incident_results(&table(&[]), batches);
    assert_eq!(find(&report, 5).low.count, 1);
}

#[test]
fn identity_source_failure_gives_empty_table() {
    let fetched: Result<Vec<(String, u64)>, incident::FetchError> =
        Err(incident::FetchError { message: "unreachable".to_string() });
    let m = incident::directory_or_empty(fetched).ok().unwrap();
    assert_eq!(m.len(), 0);
    let r = record(&[("ip", Value::from("10.0.0.5")), ("priority", Value::from("low"))]);
    assert_eq!(normalize_record(EndpointType::Probing, r, 1, &m).err(), Some(IncidentError::UnresolvableIdentity));
    let dup = vec![("a".to_string(), 1), ("b".to_string(), 1)];
    assert_eq!(incident::directory_or_empty(Ok(dup)).err(), Some(IncidentError::MalformedIdentityData));
    let good = vec![("a".to_string(), 1)];
    assert_eq!(incident::directory_or_empty(Ok(good)).ok().unwrap().len(), 1);
}

#[test]
fn identity_pairs_need_numbers() {
    let raw = vec![("10.0.0.5".to_string(), Value::from(42u64)), ("10.0.0.6".to_string(), Value::from(7u64))];
    assert_eq!(incident::identity_pairs(raw).ok().unwrap(), vec![("10.0.0.5".to_string(), 42), ("10.0.0.6".to_string(), 7)]);
    let bad = vec![("10.0.0.5".to_string(), Value::from("x"))];
    assert_eq!(incident::identity_pairs(bad).err(), Some(IncidentError::MalformedIdentityData));
}

#[test]
fn other_identifier_prefers_text() {
    let m = table(&[("10.0.0.5", 42)]);
    let text = record(&[("identifier", Value::from("10.0.0.5")), ("priority", Value::from("medium"))]);
    assert_eq!(identity_field(EndpointType::Other, &text), IdentityField::Text("10.0.0.5".to_string()));
    let n = normalize_record(EndpointType::Other, text, 9, &m).ok().unwrap();
    assert_eq!(n.identity, 42);
    assert_eq!(n.timestamp, 9);
    assert_eq!(n.record.get("type"), Some(&Value::from("other")));
    assert_eq!(n.record.get("identifier"), Some(&Value::from("10.0.0.5")));
    let none = record(&[("identifier", Value::Bool(true)), ("priority", Value::from("medium"))]);
    assert_eq!(identity_field(EndpointType::Other, &none), IdentityField::Absent);
    let no_priority = record(&[("identifier", Value::from(4u64))]);
    assert_eq!(normalize_record(EndpointType::Other, no_priority, 9, &m).err(), Some(IncidentError::UnknownSeverity));
}

#[test]
fn empty_table_keeps_direct_records() {
    let m = incident::IdentityMapping::empty();
    let d = record(&[("reported_by", Value::from(8u64)), ("priority", Value::from("low"))]);
    let p = record(&[("ip", Value::from("10.0.0.5")), ("priority", Value::from("low"))]);
    let batches = vec![
        Batch { category: EndpointType::Denial, records: vec![TimedRecord { timestamp: 1, record: d }] },
        Batch { category: EndpointType::Probing, records: vec![TimedRecord { timestamp: 2, record: p }] },
    ];
    let (report, dropped) = to_incident_results(&m, batches);
    assert_eq!(dropped, vec![0, 1]);
    assert_eq!(report.identities.len(), 1);
    assert_eq!(find(&report, 8).low.count, 1);
}
