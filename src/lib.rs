//! Aggregation of security-incident records: category parsing, identity
//! resolution, a timestamp-ordered merge, and grouping by identity and severity.

pub mod category;
pub mod identity;
pub mod json;
pub mod normalize;
pub mod merge;
pub mod report;
pub mod gather;

pub use category::EndpointType;
pub use identity::{identity_pairs, to_identity_mappings, IdentityMapping, IncidentError};
pub use merge::{merge, Batch, MergeOutcome, MergedSet, TimedRecord};
pub use normalize::{identity_field, normalize_record, resolve_identity, IdentityField, NormalizedRecord, Severity, Unauthorized};
pub use report::{aggregate, to_incident_results, IdentityIncidents, IncidentReport, IncidentResponse};
pub use gather::{directory_or_empty, gather_batches, FetchError};
