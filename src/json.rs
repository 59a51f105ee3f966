use vstd::prelude::*;

verus! {

/// A JSON document as plain values. Numbers are held as serde_json renders
/// them (`1e2` is held as `100.0`); object members are listed in key order,
/// one per key.
pub enum Json {
    Null,
    Bool(bool),
    Number(String),
    Text(String),
    Array(Vec<Json>),
    Object(Vec<(String, Json)>),
}

/// The document that a JSON text denotes, or `None` when the text is not JSON.
pub uninterp spec fn json_document(text: Seq<char>) -> Option<Json>;

#[verifier::external_type_specification]
#[verifier::external_body]
pub struct ExValue(serde_json::Value);

/// Relies on serde_json::from_str into serde_json::Value: it either rejects
/// the text or yields the one document the text denotes.
#[verifier::external_body]
fn read_json(text: &str) -> (r: Option<Json>)
    ensures
        r == json_document(text@),
{
    match serde_json::from_str::<serde_json::Value>(text) {
        Ok(v) => Some(json_from_value(v)),
        Err(_) => None,
    }
}

/// Moves a serde_json::Value into `Json`, variant for variant; serde_json's
/// default map keeps members in key order.
#[verifier::external_body]
fn json_from_value(v: serde_json::Value) -> Json {
    match v {
        serde_json::Value::Null => Json::Null,
        serde_json::Value::Bool(b) => Json::Bool(b),
        serde_json::Value::Number(n) => Json::Number(n.to_string()),
        serde_json::Value::String(s) => Json::Text(s),
        serde_json::Value::Array(a) => Json::Array(a.into_iter().map(json_from_value).collect()),
        serde_json::Value::Object(o) => Json::Object(o.into_iter().map(|(k, x)| (k, json_from_value(x))).collect()),
    }
}

/// Parses a JSON text.
pub fn parse_json(text: &str) -> (r: Option<Json>)
    ensures
        r == json_document(text@),
{
    read_json(text)
}

/// The value of the first member of `fields` named `key`.
pub open spec fn member_of(fields: Seq<(String, Json)>, key: Seq<char>) -> Option<Json>
    decreases fields.len(),
{
    if fields.len() == 0 {
        None
    } else if fields[0].0@ == key {
        Some(fields[0].1)
    } else {
        member_of(fields.drop_first(), key)
    }
}

/// Looking up from position `k` on gives what the whole list gives, when no
/// earlier member has the key.
proof fn lemma_member_from(fields: Seq<(String, Json)>, key: Seq<char>, k: int)
    requires
        0 <= k <= fields.len(),
        forall|j: int| 0 <= j < k ==> (#[trigger] fields[j]).0@ != key,
    ensures
        member_of(fields, key) == member_of(fields.subrange(k, fields.len() as int), key),
    decreases k,
{
    if k > 0 {
        assert(fields[0].0@ != key);
        let rest = fields.drop_first();
        lemma_member_from(rest, key, k - 1);
        assert(rest.subrange(k - 1, rest.len() as int) =~= fields.subrange(k, fields.len() as int));
    } else {
        assert(fields.subrange(0, fields.len() as int) =~= fields);
    }
}

/// The value of the first member of `fields` named `key`.
pub fn member<'a>(fields: &'a Vec<(String, Json)>, key: &String) -> (r: Option<&'a Json>)
    ensures
        match r {
            Some(v) => member_of(fields@, key@) == Some(*v),
            None => member_of(fields@, key@) is None,
        },
{
    let mut k: usize = 0;
    while k < fields.len()
        invariant
            k <= fields@.len(),
            forall|j: int| 0 <= j < k ==> (#[trigger] fields@[j]).0@ != key@,
        decreases fields@.len() - k,
    {
        if fields[k].0 == *key {
            proof {
                lemma_member_from(fields@, key@, k as int);
            }
            return Some(&fields[k].1);
        }
        k = k + 1;
    }
    proof {
        lemma_member_from(fields@, key@, k as int);
    }
    None
}

} // verus!
