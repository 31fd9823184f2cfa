//! JSON documents: the call into `serde_json` that parses them, the tree in
//! which the library reads a parsed document, and the lookup of an object's
//! members.
use vstd::prelude::*;
use serde_json::Value;
use crate::text::str_eq;

verus! {

/// A parsed JSON document (`serde_json::Value`).
#[verifier::external_type_specification]
#[verifier::external_body]
pub struct ExJsonValue(serde_json::Value);

/// A JSON document as the library reads it: each value of the document as
/// one node, a number held as what `Number::as_u64` gives for it (the
/// library reads numbers only as non-negative integers).
pub enum JsonTree {
    Null,
    Bool(bool),
    Number(Option<u64>),
    Str(String),
    Array(Vec<JsonTree>),
    Object(Vec<(String, JsonTree)>),
}

/// What a `JsonTree` holds.
pub enum JsonModel {
    Null,
    Bool(bool),
    Number(Option<u64>),
    Str(Seq<char>),
    Array(Seq<JsonModel>),
    Object(Seq<(Seq<char>, JsonModel)>),
}

impl JsonTree {
    /// What the tree holds, node by node.
    pub open spec fn model(self) -> JsonModel
        decreases self,
    {
        match self {
            JsonTree::Null => JsonModel::Null,
            JsonTree::Bool(b) => JsonModel::Bool(b),
            JsonTree::Number(n) => JsonModel::Number(n),
            JsonTree::Str(s) => JsonModel::Str(s@),
            JsonTree::Array(items) => JsonModel::Array(
                Seq::new(
                    items.len() as nat,
                    |i: int|
                        if 0 <= i < items.len() {
                            items[i].model()
                        } else {
                            JsonModel::Null
                        },
                ),
            ),
            JsonTree::Object(members) => JsonModel::Object(
                Seq::new(
                    members.len() as nat,
                    |i: int|
                        if 0 <= i < members.len() {
                            (members[i].0@, members[i].1.model())
                        } else {
                            (Seq::empty(), JsonModel::Null)
                        },
                ),
            ),
        }
    }
}

impl View for JsonTree {
    type V = JsonModel;

    open spec fn view(&self) -> JsonModel {
        self.model()
    }
}

/// What `serde_json::from_str::<Value>` gives for `text`: the document (as
/// `Value`, and what its tree holds), or the message of the error (its
/// `Display`).
pub uninterp spec fn json_parse_result(text: Seq<char>) -> Result<(Value, JsonModel), Seq<char>>;

/// The document that `serde_json` parses from `text` (when it accepts it).
pub open spec fn json_document(text: Seq<char>) -> Value {
    json_parse_result(text)->Ok_0.0
}

/// What the tree of the document parsed from `text` holds (when `serde_json`
/// accepts it).
pub open spec fn json_document_tree(text: Seq<char>) -> JsonModel {
    json_parse_result(text)->Ok_0.1
}

/// What `Value::get` gives for the member `key` of `v`: the member's value
/// where `v` is an object with such a member, else nothing.
pub uninterp spec fn json_value_get(v: Value, key: Seq<char>) -> Option<Value>;

/// `serde_json` accepts `text` as one JSON document.
pub open spec fn json_accepts(text: Seq<char>) -> bool {
    json_parse_result(text) is Ok
}

/// The tree of a document: the conversion that `json_parse` applies to what
/// `serde_json` parsed, one variant of `Value` to the same variant of
/// `JsonTree`, with each number read by `Number::as_u64`.
#[verifier::external_body]
fn json_tree_of(v: &Value) -> JsonTree {
    match v {
        Value::Null => JsonTree::Null,
        Value::Bool(b) => JsonTree::Bool(*b),
        Value::Number(n) => JsonTree::Number(n.as_u64()),
        Value::String(s) => JsonTree::Str(s.clone()),
        Value::Array(items) => JsonTree::Array(items.iter().map(json_tree_of).collect()),
        Value::Object(m) => JsonTree::Object(m.iter().map(|(k, x)| (k.clone(), json_tree_of(x))).collect()),
    }
}

/// `serde_json::from_str::<Value>`: parses `text`. The contract states that
/// the result is what `json_parse_result` names for the text: the document
/// (as `serde_json::Value`, and as a tree) or the error's message.
#[verifier::external_body]
pub(crate) fn json_parse(text: &str) -> (r: Result<(Value, JsonTree), String>)
    ensures
        r is Ok ==> json_accepts(text@) && json_document_tree(text@) == (r->Ok_0).1@,
        r is Ok ==> json_document(text@) == (r->Ok_0).0,
        r is Err ==> json_parse_result(text@) is Err && json_parse_result(text@)->Err_0 == r->Err_0@,
{
    match serde_json::from_str::<Value>(text) {
        Ok(v) => {
            let t = json_tree_of(&v);
            Ok((v, t))
        },
        Err(e) => Err(e.to_string()),
    }
}

/// `Value::get` with a string key: the member of an object under `key`. The
/// contract states that the result is what `json_value_get` names.
#[verifier::external_body]
pub(crate) fn json_get<'a>(v: &'a Value, key: &str) -> (r: Option<&'a Value>)
    ensures
        r is None <==> json_value_get(*v, key@) is None,
        r is Some ==> json_value_get(*v, key@) == Some(*r->Some_0),
{
    v.get(key)
}

/// `Value::clone`: the contract states that the copy equals the value copied.
#[verifier::external_body]
pub(crate) fn json_clone(v: &Value) -> (r: Value)
    ensures
        r == *v,
{
    v.clone()
}

/// The value of the first member named `key` among `members`.
pub open spec fn member_value(members: Seq<(Seq<char>, JsonModel)>, key: Seq<char>) -> Option<JsonModel>
    decreases members.len(),
{
    if members.len() == 0 {
        None
    } else if members[0].0 == key {
        Some(members[0].1)
    } else {
        member_value(members.drop_first(), key)
    }
}

/// The member `key` of an object (`Value::get`); `None` for other values.
pub open spec fn json_member(t: JsonModel, key: Seq<char>) -> Option<JsonModel> {
    match t {
        JsonModel::Object(members) => member_value(members, key),
        _ => None,
    }
}

/// The text of a string value (`Value::as_str`).
pub open spec fn json_text(t: Option<JsonModel>) -> Option<Seq<char>> {
    match t {
        Some(JsonModel::Str(s)) => Some(s),
        _ => None,
    }
}

/// What an optional tree holds.
pub open spec fn opt_model(t: Option<&JsonTree>) -> Option<JsonModel> {
    match t {
        Some(x) => Some(x@),
        None => None,
    }
}

/// The member `key` of an object (`Value::get`), `None` when `t` is not an
/// object or has no such member.
pub fn member<'a>(t: &'a JsonTree, key: &str) -> (r: Option<&'a JsonTree>)
    ensures
        opt_model(r) == json_member(t@, key@),
{
    match t {
        JsonTree::Object(members) => {
            let ghost ms = t@->Object_0;
            let mut i: usize = 0;
            assert(ms.skip(0) =~= ms);
            assert(t@ == JsonModel::Object(ms));
            while i < members.len()
                invariant
                    i <= members@.len(),
                    t@ == JsonModel::Object(ms),
                    ms.len() == members@.len(),
                    forall|j: int| 0 <= j < ms.len() ==> #[trigger] ms[j] == (members@[j].0@, members@[j].1@),
                    member_value(ms, key@) == member_value(ms.skip(i as int), key@),
                decreases members@.len() - i,
            {
                assert(ms.skip(i as int)[0] == ms[i as int]);
                assert(ms.skip(i as int).drop_first() =~= ms.skip(i + 1));
                if str_eq(members[i].0.as_str(), key) {
                    assert(ms[i as int].0 == key@);
                    assert(member_value(ms.skip(i as int), key@) == Some(ms[i as int].1));
                    return Some(&members[i].1);
                }
                i = i + 1;
            }
            None
        },
        _ => None,
    }
}

/// The text of a string value (`Value::as_str`).
pub fn text_of(t: Option<&JsonTree>) -> (r: Option<String>)
    ensures
        r is None ==> json_text(opt_model(t)) is None,
        r matches Some(s) ==> json_text(opt_model(t)) == Some(s@),
{
    match t {
        Some(JsonTree::Str(s)) => Some(s.clone()),
        _ => None,
    }
}

} // verus!
