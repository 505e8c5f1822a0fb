//! Reading JSON documents one level at a time: a node gives what a value holds when
//! it is a string or an integer, and the JSON text of each element or member, which is
//! read again where the logic goes deeper.

use vstd::prelude::*;

verus! {

/// One JSON value: its string, its integer as an `i64` and as a `u64`, the JSON text of
/// each element when it is an array, and the name and JSON text of each member when it
/// is an object.
pub struct JsonNode {
    pub text: Option<String>,
    pub int: Option<i64>,
    pub uint: Option<u64>,
    pub items: Option<Vec<String>>,
    pub fields: Option<Vec<(String, String)>>,
}

/// The abstract value of a [`JsonNode`].
pub struct JsonNodeView {
    pub text: Option<Seq<char>>,
    pub int: Option<i64>,
    pub uint: Option<u64>,
    pub items: Option<Seq<Seq<char>>>,
    pub fields: Option<Seq<(Seq<char>, Seq<char>)>>,
}

/// The texts of a sequence of strings.
pub open spec fn strings_view(v: Seq<String>) -> Seq<Seq<char>> {
    v.map_values(|s: String| s@)
}

/// The texts of a sequence of pairs of strings.
pub open spec fn pairs_view(v: Seq<(String, String)>) -> Seq<(Seq<char>, Seq<char>)> {
    v.map_values(|p: (String, String)| (p.0@, p.1@))
}

impl View for JsonNode {
    type V = JsonNodeView;

    open spec fn view(&self) -> JsonNodeView {
        JsonNodeView {
            text: match self.text {
                Some(s) => Some(s@),
                None => None,
            },
            int: self.int,
            uint: self.uint,
            items: match self.items {
                Some(v) => Some(strings_view(v@)),
                None => None,
            },
            fields: match self.fields {
                Some(v) => Some(pairs_view(v@)),
                None => None,
            },
        }
    }
}

/// The view of an optional node.
pub open spec fn node_view(n: Option<JsonNode>) -> Option<JsonNodeView> {
    match n {
        Some(n) => Some(n@),
        None => None,
    }
}

/// What `serde_json` reads from a text: `None` when the text is not JSON.
pub uninterp spec fn json_node_of(text: Seq<char>) -> Option<JsonNodeView>;

/// Parses `text` with `serde_json::from_str::<serde_json::Value>`. Claimed: the outcome
/// depends on the text alone (`json_node_of`); the node holds what `Value::as_str`,
/// `Value::as_i64` and `Value::as_u64` give, and, for an array or an object, each element
/// or member in the order `serde_json` keeps them, written back as JSON text by
/// `Value::to_string`. Nothing is stated of which texts are JSON.
#[verifier::external_body]
pub(crate) fn read_json(text: &str) -> (r: Option<JsonNode>)
    ensures
        node_view(r) == json_node_of(text@),
{
    serde_json::from_str::<serde_json::Value>(text).ok().map(|v| JsonNode {
        text: v.as_str().map(|s| s.to_string()),
        int: v.as_i64(),
        uint: v.as_u64(),
        items: v.as_array().map(|a| a.iter().map(|x| x.to_string()).collect()),
        fields: v.as_object().map(|o| o.iter().map(|(k, x)| (k.clone(), x.to_string())).collect()),
    })
}

/// The JSON text of the first member named `key`.
pub open spec fn member(fields: Seq<(Seq<char>, Seq<char>)>, key: Seq<char>) -> Option<Seq<char>>
    decreases fields.len(),
{
    if fields.len() == 0 {
        None
    } else if fields[0].0 == key {
        Some(fields[0].1)
    } else {
        member(fields.drop_first(), key)
    }
}

/// The value of the member `key` of a node: `None` when the node is no object, has no
/// such member, or the member's text does not read back.
pub open spec fn field(n: JsonNodeView, key: Seq<char>) -> Option<JsonNodeView> {
    match n.fields {
        Some(fs) => match member(fs, key) {
            Some(t) => json_node_of(t),
            None => None,
        },
        None => None,
    }
}

/// The string a value holds, if it is one.
pub open spec fn text_of(n: Option<JsonNodeView>) -> Option<Seq<char>> {
    match n {
        Some(n) => n.text,
        None => None,
    }
}

/// The `i64` a value holds, if it is one.
pub open spec fn int_of(n: Option<JsonNodeView>) -> Option<i64> {
    match n {
        Some(n) => n.int,
        None => None,
    }
}

/// The `u64` a value holds, if it is one.
pub open spec fn uint_of(n: Option<JsonNodeView>) -> Option<u64> {
    match n {
        Some(n) => n.uint,
        None => None,
    }
}

/// The element texts of a value, if it is an array.
pub open spec fn items_of(n: Option<JsonNodeView>) -> Option<Seq<Seq<char>>> {
    match n {
        Some(n) => n.items,
        None => None,
    }
}

/// The JSON text of the first member named `key`.
fn member_text(fields: &Vec<(String, String)>, key: &String) -> (r: Option<String>)
    ensures
        match r {
            Some(t) => member(pairs_view(fields@), key@) == Some(t@),
            None => member(pairs_view(fields@), key@) is None,
        },
{
    let ghost fs = pairs_view(fields@);
    let n = fields.len();
    let mut i: usize = 0;
    proof {
        assert(fs.skip(0) =~= fs);
    }
    while i < n
        invariant
            0 <= i <= n,
            n == fields@.len(),
            fs == pairs_view(fields@),
            member(fs, key@) == member(fs.skip(i as int), key@),
        decreases n - i,
    {
        proof {
            assert(fs.skip(i as int)[0] == fs[i as int]);
            assert(fs.skip(i as int).drop_first() =~= fs.skip(i + 1));
        }
        if fields[i].0 == *key {
            return Some(fields[i].1.clone());
        }
        i = i + 1;
    }
    proof {
        assert(fs.skip(n as int).len() == 0);
    }
    None
}

/// The value of the member `key` of a node.
pub fn field_node(n: &JsonNode, key: &String) -> (r: Option<JsonNode>)
    ensures
        node_view(r) == field(n@, key@),
{
    match &n.fields {
        Some(fs) => match member_text(fs, key) {
            Some(t) => read_json(t.as_str()),
            None => None,
        },
        None => None,
    }
}

} // verus!
