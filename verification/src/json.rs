//! JSON documents as values, and their text.

use serde_json::Value;
use vstd::prelude::*;

verus! {

#[verifier::external_type_specification]
#[verifier::external_body]
pub struct ExValue(serde_json::Value);

/// A JSON value. Numbers are whole.
pub enum JsonTree {
    Null,
    Bool(bool),
    Number(int),
    Text(Seq<char>),
    List(Seq<JsonTree>),
    Dict(Map<Seq<char>, JsonTree>),
}

/// What a `serde_json` value holds. Nothing is stated of one that holds a number
/// that is not whole.
pub uninterp spec fn value_tree(value: Value) -> JsonTree;

/// The text of a JSON value, as `serde_json` writes it.
pub uninterp spec fn json_text(tree: JsonTree) -> Seq<char>;

/// The JSON value that `serde_json` reads from bytes, if they are one.
pub uninterp spec fn json_parsed(bytes: Seq<u8>) -> Option<JsonTree>;

/// A JSON value to be written.
#[derive(Debug)]
pub enum JsonNode {
    Null,
    Bool(bool),
    Int(i64),
    Nat(u64),
    Text(String),
    List(Vec<JsonNode>),
    Dict(Vec<(String, JsonNode)>),
}

impl JsonNode {
    /// The value.
    pub open spec fn tree(self) -> JsonTree
        decreases self,
    {
        match self {
            JsonNode::Null => JsonTree::Null,
            JsonNode::Bool(b) => JsonTree::Bool(b),
            JsonNode::Int(n) => JsonTree::Number(n as int),
            JsonNode::Nat(n) => JsonTree::Number(n as int),
            JsonNode::Text(s) => JsonTree::Text(s@),
            JsonNode::List(items) => JsonTree::List(items_tree(items@, items@.len() as int)),
            JsonNode::Dict(fields) => JsonTree::Dict(fields_tree(fields@, fields@.len() as int)),
        }
    }
}

/// The values of the first `n` items.
pub open spec fn items_tree(items: Seq<JsonNode>, n: int) -> Seq<JsonTree>
    decreases items, n,
{
    if n <= 0 || n > items.len() {
        Seq::empty()
    } else {
        items_tree(items, n - 1).push(items[n - 1].tree())
    }
}

/// The values of the first `n` fields by name; of two with one name the later
/// counts.
pub open spec fn fields_tree(fields: Seq<(String, JsonNode)>, n: int) -> Map<Seq<char>, JsonTree>
    decreases fields, n,
{
    if n <= 0 || n > fields.len() {
        Map::empty()
    } else {
        fields_tree(fields, n - 1).insert(fields[n - 1].0@, fields[n - 1].1.tree())
    }
}

/// Trusted: the variants of `serde_json::Value` hold what they are made of, and
/// `Map::insert` puts a value under a name in the place of any other.
#[verifier::external_body]
fn value_of(node: &JsonNode) -> (r: Value)
    ensures
        value_tree(r) == node.tree(),
{
    match node {
        JsonNode::Null => Value::Null,
        JsonNode::Bool(b) => Value::Bool(*b),
        JsonNode::Int(n) => Value::from(*n),
        JsonNode::Nat(n) => Value::from(*n),
        JsonNode::Text(s) => Value::String(s.clone()),
        JsonNode::List(items) => Value::Array(items.iter().map(value_of).collect()),
        JsonNode::Dict(fields) => {
            let mut map = serde_json::Map::new();
            for (name, value) in fields {
                map.insert(name.clone(), value_of(value));
            }
            Value::Object(map)
        }
    }
}

/// Trusted: the text of a `serde_json::Value` depends on what it holds alone.
#[verifier::external_body]
fn value_text(value: &Value) -> (r: String)
    ensures
        r@ == json_text(value_tree(*value)),
{
    value.to_string()
}

/// Trusted: `serde_json::from_slice` depends on the bytes alone.
#[verifier::external_body]
pub(crate) fn parse_json(bytes: &[u8]) -> (r: Option<Value>)
    ensures
        r is Some == json_parsed(bytes@) is Some,
        r matches Some(value) ==> json_parsed(bytes@) == Some(value_tree(value)),
{
    serde_json::from_slice(bytes).ok()
}

/// The text under a name, where the value is an object with a text there.
pub open spec fn text_member(tree: JsonTree, name: Seq<char>) -> Option<Seq<char>> {
    match tree {
        JsonTree::Dict(fields) => if fields.contains_key(name) {
            match fields[name] {
                JsonTree::Text(s) => Some(s),
                _ => None,
            }
        } else {
            None
        },
        _ => None,
    }
}

/// Trusted: `Value::get` with a name finds a member of an object, and
/// `Value::as_str` the text of a string, and both find nothing otherwise.
#[verifier::external_body]
pub(crate) fn text_of_member<'a>(value: &'a Value, name: &str) -> (r: Option<&'a str>)
    ensures
        r is Some == text_member(value_tree(*value), name@) is Some,
        r matches Some(s) ==> text_member(value_tree(*value), name@) == Some(s@),
{
    value.get(name).and_then(Value::as_str)
}

/// The text of a value.
pub fn to_text(node: &JsonNode) -> (r: String)
    ensures
        r@ == json_text(node.tree()),
{
    let value = value_of(node);
    value_text(&value)
}

/// The fields of an object that is being put together.
pub struct JsonFields {
    fields: Vec<(String, JsonNode)>,
}

impl View for JsonFields {
    type V = Map<Seq<char>, JsonTree>;

    closed spec fn view(&self) -> Map<Seq<char>, JsonTree> {
        fields_tree(self.fields@, self.fields@.len() as int)
    }
}

proof fn lemma_fields_prefix(fields: Seq<(String, JsonNode)>, longer: Seq<(String, JsonNode)>, n: int)
    requires
        0 <= n <= fields.len() <= longer.len(),
        forall|i: int| 0 <= i < fields.len() ==> fields[i] == longer[i],
    ensures
        fields_tree(fields, n) == fields_tree(longer, n),
    decreases n,
{
    if n > 0 {
        lemma_fields_prefix(fields, longer, n - 1);
    }
}

proof fn lemma_items_prefix(items: Seq<JsonNode>, longer: Seq<JsonNode>, n: int)
    requires
        0 <= n <= items.len() <= longer.len(),
        forall|i: int| 0 <= i < items.len() ==> items[i] == longer[i],
    ensures
        items_tree(items, n) == items_tree(longer, n),
    decreases n,
{
    if n > 0 {
        lemma_items_prefix(items, longer, n - 1);
    }
}

impl JsonFields {
    /// An object without fields.
    pub fn new() -> (r: JsonFields)
        ensures
            r@ == Map::<Seq<char>, JsonTree>::empty(),
    {
        JsonFields { fields: Vec::new() }
    }

    /// Puts a field.
    pub fn put(&mut self, name: &str, node: JsonNode)
        ensures
            final(self)@ == old(self)@.insert(name@, node.tree()),
    {
        let ghost before = self.fields@;
        self.fields.push((name.to_owned(), node));
        proof {
            lemma_fields_prefix(before, self.fields@, before.len() as int);
        }
    }

    /// Puts a text.
    pub fn put_text(&mut self, name: &str, text: &str)
        ensures
            final(self)@ == old(self)@.insert(name@, JsonTree::Text(text@)),
    {
        self.put(name, JsonNode::Text(text.to_owned()));
    }

    /// Puts a text, or null where there is none.
    pub fn put_optional(&mut self, name: &str, text: &Option<String>)
        ensures
            final(self)@ == old(self)@.insert(name@, optional_text(*text)),
    {
        match text {
            Some(s) => self.put(name, JsonNode::Text(s.clone())),
            None => self.put(name, JsonNode::Null),
        }
    }

    /// Puts a number.
    pub fn put_nat(&mut self, name: &str, n: u64)
        ensures
            final(self)@ == old(self)@.insert(name@, JsonTree::Number(n as int)),
    {
        self.put(name, JsonNode::Nat(n));
    }

    /// Puts a number.
    pub fn put_int(&mut self, name: &str, n: i64)
        ensures
            final(self)@ == old(self)@.insert(name@, JsonTree::Number(n as int)),
    {
        self.put(name, JsonNode::Int(n));
    }

    /// Puts a truth value.
    pub fn put_bool(&mut self, name: &str, b: bool)
        ensures
            final(self)@ == old(self)@.insert(name@, JsonTree::Bool(b)),
    {
        self.put(name, JsonNode::Bool(b));
    }

    /// The object.
    pub fn finish(self) -> (r: JsonNode)
        ensures
            r.tree() == JsonTree::Dict(self@),
    {
        JsonNode::Dict(self.fields)
    }
}

/// A text, or null where there is none.
pub open spec fn optional_text(text: Option<String>) -> JsonTree {
    match text {
        Some(s) => JsonTree::Text(s@),
        None => JsonTree::Null,
    }
}

/// The items of a list that is being put together.
pub struct JsonList {
    items: Vec<JsonNode>,
}

impl View for JsonList {
    type V = Seq<JsonTree>;

    closed spec fn view(&self) -> Seq<JsonTree> {
        items_tree(self.items@, self.items@.len() as int)
    }
}

impl JsonList {
    /// A list without items.
    pub fn new() -> (r: JsonList)
        ensures
            r@ == Seq::<JsonTree>::empty(),
    {
        JsonList { items: Vec::new() }
    }

    /// Adds an item.
    pub fn push(&mut self, node: JsonNode)
        ensures
            final(self)@ == old(self)@.push(node.tree()),
    {
        let ghost before = self.items@;
        self.items.push(node);
        proof {
            lemma_items_prefix(before, self.items@, before.len() as int);
        }
    }

    /// The list.
    pub fn finish(self) -> (r: JsonNode)
        ensures
            r.tree() == JsonTree::List(self@),
    {
        JsonNode::List(self.items)
    }
}

/// A value to be written stands for the same value: texts, numbers and truth values as
/// they are, lists in order, and of fields with one name the last.
pub proof fn values_stand_for_themselves(
    text: String,
    b: bool,
    n: u64,
    z: i64,
    items: Vec<JsonNode>,
    fields: Vec<(String, JsonNode)>,
)
    ensures
        JsonNode::Null.tree() == JsonTree::Null,
        JsonNode::Bool(b).tree() == JsonTree::Bool(b),
        JsonNode::Nat(n).tree() == JsonTree::Number(n as int),
        JsonNode::Int(z).tree() == JsonTree::Number(z as int),
        JsonNode::Text(text).tree() == JsonTree::Text(text@),
        JsonNode::List(items).tree() matches JsonTree::List(trees) && trees.len() == items@.len()
            && forall|i: int|
            0 <= i < items@.len() ==> trees[i] == (#[trigger] items@[i]).tree(),
        JsonNode::Dict(fields).tree() matches JsonTree::Dict(named) && (forall|k: int|
            0 <= k < fields@.len() && (forall|j: int|
                k < j < fields@.len() ==> (#[trigger] fields@[j]).0@ != fields@[k].0@)
                ==> named.contains_key((#[trigger] fields@[k]).0@) && named[fields@[k].0@]
                == fields@[k].1.tree()),
        optional_text(Some(text)) == JsonTree::Text(text@),
        optional_text(None) == JsonTree::Null,
{
    lemma_items(items@, items@.len() as int);
    assert forall|k: int|
        0 <= k < fields@.len() && (forall|j: int|
            k < j < fields@.len() ==> (#[trigger] fields@[j]).0@
                != fields@[k].0@) implies fields_tree(
        fields@,
        fields@.len() as int,
    ).contains_key((#[trigger] fields@[k]).0@) && fields_tree(
        fields@,
        fields@.len() as int,
    )[fields@[k].0@] == fields@[k].1.tree() by {
        lemma_field(fields@, k, fields@.len() as int);
    }
}

proof fn lemma_items(items: Seq<JsonNode>, n: int)
    requires
        0 <= n <= items.len(),
    ensures
        items_tree(items, n).len() == n,
        forall|i: int| 0 <= i < n ==> items_tree(items, n)[i] == (#[trigger] items[i]).tree(),
    decreases n,
{
    if n > 0 {
        lemma_items(items, n - 1);
    }
}

proof fn lemma_field(fields: Seq<(String, JsonNode)>, k: int, n: int)
    requires
        0 <= k < n <= fields.len(),
        forall|j: int| k < j < n ==> (#[trigger] fields[j]).0@ != fields[k].0@,
    ensures
        fields_tree(fields, n).contains_key(fields[k].0@),
        fields_tree(fields, n)[fields[k].0@] == fields[k].1.tree(),
    decreases n,
{
    if k < n - 1 {
        lemma_field(fields, k, n - 1);
        assert(fields[n - 1].0@ != fields[k].0@);
    }
}

/// The text of a member is found where the value is an object with a text of that name.
pub proof fn members_are_found_by_name(
    fields: Map<Seq<char>, JsonTree>,
    name: Seq<char>,
    text: Seq<char>,
    tree: JsonTree,
)
    ensures
        text_member(JsonTree::Dict(fields), name) == Some(text) <==> fields.contains_key(name)
            && fields[name] == JsonTree::Text(text),
        !(tree is Dict) ==> text_member(tree, name) is None,
{
}

} // verus!
