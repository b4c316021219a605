use vstd::prelude::*;

verus! {

#[verifier::external_type_specification]
#[verifier::external_body]
pub struct ExValue(serde_json::Value);

/// A parsed JSON document as a tree of plain values: the library's own
/// representation, so that everything read off the wire can be spoken of in
/// contracts. Numbers are carried by their display text; an object's fields
/// come in the parser's (key-sorted) order.
pub enum JsonNode {
    Null,
    Flag(bool),
    Num(String),
    Text(String),
    Items(Vec<JsonNode>),
    Fields(Vec<(String, JsonNode)>),
}

/// The mathematical content of a `JsonNode`.
pub enum JsonModel {
    Null,
    Flag(bool),
    Num(Seq<char>),
    Text(Seq<char>),
    Items(Seq<JsonModel>),
    Fields(Seq<(Seq<char>, JsonModel)>),
}

/// The models of a sequence of child nodes.
pub open spec fn items_model(s: Seq<JsonNode>) -> Seq<JsonModel>
    decreases s,
{
    if s.len() == 0 {
        Seq::empty()
    } else {
        seq![s.first()@] + items_model(s.skip(1))
    }
}

/// The models of an object's fields, keys and values.
pub open spec fn fields_model(s: Seq<(String, JsonNode)>) -> Seq<(Seq<char>, JsonModel)>
    decreases s,
{
    if s.len() == 0 {
        Seq::empty()
    } else {
        seq![(s.first().0@, s.first().1@)] + fields_model(s.skip(1))
    }
}

impl View for JsonNode {
    type V = JsonModel;

    open spec fn view(&self) -> JsonModel
        decreases self,
    {
        match self {
            JsonNode::Null => JsonModel::Null,
            JsonNode::Flag(b) => JsonModel::Flag(*b),
            JsonNode::Num(s) => JsonModel::Num(s@),
            JsonNode::Text(s) => JsonModel::Text(s@),
            JsonNode::Items(v) => JsonModel::Items(items_model(v@)),
            JsonNode::Fields(v) => JsonModel::Fields(fields_model(v@)),
        }
    }
}

/// Child models line up with the child nodes, one for one.
pub proof fn lemma_items_model(s: Seq<JsonNode>)
    ensures
        items_model(s).len() == s.len(),
        forall|i: int| 0 <= i < s.len() ==> items_model(s)[i] == #[trigger] s[i]@,
    decreases s.len(),
{
    if s.len() > 0 {
        lemma_items_model(s.skip(1));
        assert(items_model(s) == seq![s.first()@] + items_model(s.skip(1)));
        assert(items_model(s).len() == s.len());
        assert forall|i: int| 0 <= i < s.len() implies items_model(s)[i] == s[i]@ by {
            if i > 0 {
                assert(s.skip(1)[i - 1] == s[i]);
                assert(items_model(s.skip(1))[i - 1] == s.skip(1)[i - 1]@);
                assert(items_model(s)[i] == items_model(s.skip(1))[i - 1]);
            }
        }
    } else {
        assert(items_model(s) == Seq::<JsonModel>::empty());
    }
}

/// Field models line up with the fields, one for one.
pub proof fn lemma_fields_model(s: Seq<(String, JsonNode)>)
    ensures
        fields_model(s).len() == s.len(),
        forall|i: int|
            0 <= i < s.len() ==> fields_model(s)[i] == (#[trigger] s[i].0@, s[i].1@),
    decreases s.len(),
{
    if s.len() > 0 {
        lemma_fields_model(s.skip(1));
        assert(fields_model(s) == seq![(s.first().0@, s.first().1@)] + fields_model(s.skip(1)));
        assert(fields_model(s).len() == s.len());
        assert forall|i: int| 0 <= i < s.len() implies fields_model(s)[i] == (
        s[i].0@,
        s[i].1@,
        ) by {
            if i > 0 {
                assert(s.skip(1)[i - 1] == s[i]);
                assert(fields_model(s.skip(1))[i - 1] == (s.skip(1)[i - 1].0@, s.skip(1)[i - 1].1@));
                assert(fields_model(s)[i] == fields_model(s.skip(1))[i - 1]);
            }
        }
    } else {
        assert(fields_model(s) == Seq::<(Seq<char>, JsonModel)>::empty());
    }
}

/// What parsing a JSON text yields: the document as the library's plain
/// tree, or the parser's message for why the text is not a document. The
/// outcome is a function of the text alone.
pub uninterp spec fn json_doc_of(s: Seq<char>) -> Result<JsonModel, Seq<char>>;

/// Relies on the shape of serde_json::Value: each variant is carried over
/// into the library's plain tree one for one, numbers by their display text.
#[verifier::external_body]
fn value_tree(v: &serde_json::Value) -> JsonNode {
    match v {
        serde_json::Value::Null => JsonNode::Null,
        serde_json::Value::Bool(b) => JsonNode::Flag(*b),
        serde_json::Value::Number(n) => JsonNode::Num(n.to_string()),
        serde_json::Value::String(s) => JsonNode::Text(s.clone()),
        serde_json::Value::Array(a) => JsonNode::Items(a.iter().map(value_tree).collect()),
        serde_json::Value::Object(o) => JsonNode::Fields(
            o.iter().map(|(k, x)| (k.clone(), value_tree(x))).collect(),
        ),
    }
}

/// Relies on serde_json::from_str::<Value>: parses a JSON document, or
/// reports the parser's own message; the document is then re-represented as
/// the library's plain tree, so the result is the named one.
#[verifier::external_body]
pub fn json_parse(s: &str) -> (r: Result<JsonNode, String>)
    ensures
        match r {
            Ok(t) => json_doc_of(s@) == Result::<JsonModel, Seq<char>>::Ok(t@),
            Err(e) => json_doc_of(s@) == Result::<JsonModel, Seq<char>>::Err(e@),
        },
{
    match serde_json::from_str::<serde_json::Value>(s) {
        Ok(v) => Ok(value_tree(&v)),
        Err(e) => Err(format!("{}", e)),
    }
}

} // verus!
