use vstd::prelude::*;

verus! {

#[verifier::external_type_specification]
#[verifier::external_body]
pub struct ExJsonValue(serde_json::Value);

#[verifier::external_type_specification]
#[verifier::external_body]
#[verifier::reject_recursive_types(K)]
#[verifier::reject_recursive_types(V)]
pub struct ExJsonObject<K, V>(serde_json::Map<K, V>);

/// A raw incident record, a JSON object as a source delivers it.
pub type Record = serde_json::Map<String, serde_json::Value>;

/// What a record holds: the value stored under each key.
pub uninterp spec fn fields(r: Record) -> Map<Seq<char>, serde_json::Value>;

/// The number a value holds, when it is an integer that fits `u64`.
pub uninterp spec fn u64_of(v: serde_json::Value) -> Option<u64>;

/// The text a value holds, when it is a string.
pub uninterp spec fn str_of(v: serde_json::Value) -> Option<Seq<char>>;

/// Relies on serde_json::Map::get: the value stored under `key`, if any.
#[verifier::external_body]
pub(crate) fn get_field<'a>(record: &'a Record, key: &str) -> (r: Option<&'a serde_json::Value>)
    ensures
        match r {
            Some(v) => fields(*record).contains_key(key@) && *v == fields(*record)[key@],
            None => !fields(*record).contains_key(key@),
        },
{
    record.get(key)
}

/// Relies on serde_json::Value::as_u64: the number, when the value is an integer that fits `u64`.
#[verifier::external_body]
pub(crate) fn value_as_u64(v: &serde_json::Value) -> (r: Option<u64>)
    ensures
        r == u64_of(*v),
{
    v.as_u64()
}

/// Relies on serde_json::Value::as_str: the text, when the value is a string.
#[verifier::external_body]
pub(crate) fn value_as_string(v: &serde_json::Value) -> (r: Option<String>)
    ensures
        match r {
            Some(s) => str_of(*v) == Some(s@),
            None => str_of(*v).is_none(),
        },
{
    match v.as_str() {
        Some(s) => Some(s.to_string()),
        None => None,
    }
}

/// Relies on serde_json::Map::insert: stores a string value under `key`,
/// replacing what was there, and keeps every other entry.
#[verifier::external_body]
pub(crate) fn insert_text(record: &mut Record, key: String, value: String)
    ensures
        fields(*final(record)).dom() == fields(*old(record)).dom().insert(key@),
        str_of(fields(*final(record))[key@]) == Some(value@),
        forall|k: Seq<char>|
            k != key@ && #[trigger] fields(*old(record)).contains_key(k) ==> fields(*final(record))[k] == fields(
                *old(record),
            )[k],
{
    record.insert(key, serde_json::Value::String(value));
}

} // verus!
