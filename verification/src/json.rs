//! JSON documents, as far as the rest of the crate looks into them.
use vstd::prelude::*;

verus! {

/// What a JSON document holds.
pub enum JsonTree {
    /// `null`, a boolean or a number.
    Scalar,
    /// A string.
    Text(Seq<char>),
    /// An array, in order.
    Array(Seq<JsonTree>),
    /// An object: its members, each name once.
    Object(Seq<(Seq<char>, JsonTree)>),
}

/// A JSON document.
pub enum Json {
    /// `null`, a boolean or a number.
    Scalar,
    /// A string.
    Text(String),
    /// An array, in order.
    Array(Vec<Json>),
    /// An object: its members, each name once.
    Object(Vec<(String, Json)>),
}

impl Json {
    /// The document as a mathematical tree.
    pub open spec fn tree(self) -> JsonTree
        decreases self,
    {
        match self {
            Json::Scalar => JsonTree::Scalar,
            Json::Text(text) => JsonTree::Text(text@),
            Json::Array(items) => JsonTree::Array(
                Seq::new(
                    items@.len(),
                    |i: int|
                        if 0 <= i < items@.len() {
                            items@[i].tree()
                        } else {
                            JsonTree::Scalar
                        },
                ),
            ),
            Json::Object(members) => JsonTree::Object(
                Seq::new(
                    members@.len(),
                    |i: int|
                        if 0 <= i < members@.len() {
                            (members@[i].0@, members@[i].1.tree())
                        } else {
                            (Seq::<char>::empty(), JsonTree::Scalar)
                        },
                ),
            ),
        }
    }
}

/// The value of the first member with the given name.
pub open spec fn member(members: Seq<(Seq<char>, JsonTree)>, name: Seq<char>) -> Option<JsonTree>
    decreases members.len(),
{
    if members.len() == 0 {
        None
    } else if members[0].0 == name {
        Some(members[0].1)
    } else {
        member(members.drop_first(), name)
    }
}

/// The value that a document holds under a name; `None` where it is no object or has no such member.
pub open spec fn value_at(document: JsonTree, name: Seq<char>) -> Option<JsonTree> {
    match document {
        JsonTree::Object(members) => member(members, name),
        _ => None,
    }
}

impl Json {
    /// The value that an object holds under a name.
    pub fn get(&self, name: &str) -> (r: Option<&Json>)
        ensures
            match r {
                Some(value) => value_at(self.tree(), name@) == Some(value.tree()),
                None => value_at(self.tree(), name@) is None,
            },
    {
        match self {
            Json::Object(members) => {
                let wanted: String = name.to_owned();
                let ghost trees = self.tree()->Object_0;
                assert(trees.skip(0) =~= trees);
                for i in 0..members.len()
                    invariant
                        *self == Json::Object(*members),
                        trees == self.tree()->Object_0,
                        trees.len() == members@.len(),
                        wanted@ == name@,
                        member(trees, name@) == member(trees.skip(i as int), name@),
                {
                    let found = members[i].0 == wanted;
                    assert(trees.skip(i as int)[0] == (members@[i as int].0@, members@[i as int].1.tree()));
                    if found {
                        return Some(&members[i].1);
                    }
                    assert(trees.skip(i as int).drop_first() =~= trees.skip(i + 1));
                }
                None
            },
            _ => None,
        }
    }
}

/// `serde_json::Value`, a parsed JSON document.
#[verifier::external_type_specification]
#[verifier::external_body]
pub struct ExValue(serde_json::Value);

/// `serde_json::Error`, why a text is no JSON document.
#[verifier::external_type_specification]
#[verifier::external_body]
pub struct ExError(serde_json::Error);

/// What a `serde_json::Value` holds.
pub uninterp spec fn value_tree(value: serde_json::Value) -> JsonTree;

/// The document that a text holds, or why it is not JSON, as `serde_json` reads it.
pub uninterp spec fn parsed_tree(text: Seq<char>) -> Result<JsonTree, Seq<char>>;

/// What a `serde_json::Error` says.
pub uninterp spec fn error_text(error: serde_json::Error) -> Seq<char>;

/// One level of a `serde_json::Value`.
enum Layer {
    Scalar,
    Text(String),
    Array(Vec<serde_json::Value>),
    Object(Vec<(String, serde_json::Value)>),
}

/// Calls `serde_json::from_str` for a `serde_json::Value`. Whether the text is JSON, and which document it
/// holds or what the error says, depends on the text alone.
#[verifier::external_body]
fn parse_value(text: &str) -> (r: Result<serde_json::Value, serde_json::Error>)
    ensures
        match r {
            Ok(value) => parsed_tree(text@) == Ok::<JsonTree, Seq<char>>(value_tree(value)),
            Err(error) => parsed_tree(text@) == Err::<JsonTree, Seq<char>>(error_text(error)),
        },
{
    serde_json::from_str(text)
}

/// Calls `to_string` of `serde_json::Error`, which depends on the error alone.
#[verifier::external_body]
fn describe_error(error: &serde_json::Error) -> (r: String)
    ensures
        r@ == error_text(*error),
{
    error.to_string()
}

/// Takes a `serde_json::Value` apart by its variant. A `Null`, `Bool` or `Number` is a scalar, a `String`
/// its text, an `Array` its items in order, and an `Object` its members in the order in which
/// `serde_json::Map` hands them out.
#[verifier::external_body]
fn open_value(value: serde_json::Value) -> (r: Layer)
    ensures
        match r {
            Layer::Scalar => value_tree(value) == JsonTree::Scalar,
            Layer::Text(text) => value_tree(value) == JsonTree::Text(text@),
            Layer::Array(items) => value_tree(value) == JsonTree::Array(
                items@.map_values(|v: serde_json::Value| value_tree(v)),
            ),
            Layer::Object(members) => value_tree(value) == JsonTree::Object(
                members@.map_values(|m: (String, serde_json::Value)| (m.0@, value_tree(m.1))),
            ),
        },
{
    match value {
        serde_json::Value::Null => Layer::Scalar,
        serde_json::Value::Bool(_) => Layer::Scalar,
        serde_json::Value::Number(_) => Layer::Scalar,
        serde_json::Value::String(text) => Layer::Text(text),
        serde_json::Value::Array(items) => Layer::Array(items),
        serde_json::Value::Object(members) => Layer::Object(members.into_iter().collect()),
    }
}

/// Copies a `serde_json::Value` into a document of this crate.
fn convert(value: serde_json::Value) -> (r: Json)
    ensures
        r.tree() == value_tree(value),
    decreases value_tree(value),
{
    let ghost whole = value_tree(value);
    match open_value(value) {
        Layer::Scalar => Json::Scalar,
        Layer::Text(text) => Json::Text(text),
        Layer::Array(items) => {
            let mut out: Vec<Json> = Vec::new();
            let ghost all = items@;
            for item in it: items
                invariant
                    it.seq() == all,
                    whole == value_tree(value),
                    whole == JsonTree::Array(all.map_values(|v: serde_json::Value| value_tree(v))),
                    out@.len() == it.index(),
                    forall|i: int|
                        0 <= i < it.index() ==> (#[trigger] out@[i]).tree() == value_tree(all[i]),
            {
                proof {
                    let i = it.index();
                    assert(decreases_to!(whole => whole->Array_0));
                    assert(decreases_to!(whole->Array_0 => whole->Array_0[i]));
                    assert(whole->Array_0[i] == value_tree(item));
                }
                out.push(convert(item));
            }
            let r = Json::Array(out);
            assert(r.tree()->Array_0 =~= whole->Array_0);
            r
        },
        Layer::Object(members) => {
            let mut out: Vec<(String, Json)> = Vec::new();
            let ghost all = members@;
            for member in it: members
                invariant
                    it.seq() == all,
                    whole == value_tree(value),
                    whole == JsonTree::Object(
                        all.map_values(|m: (String, serde_json::Value)| (m.0@, value_tree(m.1))),
                    ),
                    out@.len() == it.index(),
                    forall|i: int|
                        0 <= i < it.index() ==> (#[trigger] out@[i]).0@ == all[i].0@
                            && out@[i].1.tree() == value_tree(all[i].1),
            {
                proof {
                    let i = it.index();
                    assert(decreases_to!(whole => whole->Object_0));
                    assert(decreases_to!(whole->Object_0 => whole->Object_0[i]));
                    assert(decreases_to!(whole->Object_0[i] => whole->Object_0[i].1));
                    assert(whole->Object_0[i].1 == value_tree(member.1));
                }
                let (name, value) = member;
                out.push((name, convert(value)));
            }
            let r = Json::Object(out);
            assert(r.tree()->Object_0 =~= whole->Object_0);
            r
        },
    }
}

/// Reads the text of a JSON document. The error is the reader's account of why the text is not JSON.
pub fn parse_json(text: &str) -> (r: Result<Json, String>)
    ensures
        match r {
            Ok(document) => parsed_tree(text@) == Ok::<JsonTree, Seq<char>>(document.tree()),
            Err(message) => parsed_tree(text@) == Err::<JsonTree, Seq<char>>(message@),
        },
{
    match parse_value(text) {
        Ok(value) => Ok(convert(value)),
        Err(error) => Err(describe_error(&error)),
    }
}

/// The value under a name is that of the first member with that name, wherever it stands.
pub proof fn law_first_member_with_a_name_counts(
    members: Seq<(Seq<char>, JsonTree)>,
    name: Seq<char>,
    i: int,
)
    requires
        0 <= i < members.len(),
        members[i].0 == name,
        forall|j: int| 0 <= j < i ==> (#[trigger] members[j]).0 != name,
    ensures
        value_at(JsonTree::Object(members), name) == Some(members[i].1),
    decreases i,
{
    if i > 0 {
        let rest = members.drop_first();
        assert(members[0].0 != name);
        assert forall|j: int| 0 <= j < i - 1 implies (#[trigger] rest[j]).0 != name by {
            assert(rest[j] == members[j + 1]);
        }
        law_first_member_with_a_name_counts(rest, name, i - 1);
    }
}

/// A name that no member has has no value, and nothing but an object has members.
pub proof fn law_absent_members_have_no_value(
    members: Seq<(Seq<char>, JsonTree)>,
    name: Seq<char>,
    text: Seq<char>,
    items: Seq<JsonTree>,
)
    requires
        forall|j: int| 0 <= j < members.len() ==> (#[trigger] members[j]).0 != name,
    ensures
        value_at(JsonTree::Object(members), name) is None,
        value_at(JsonTree::Array(items), name) is None,
        value_at(JsonTree::Text(text), name) is None,
        value_at(JsonTree::Scalar, name) is None,
    decreases members.len(),
{
    if members.len() > 0 {
        let rest = members.drop_first();
        assert(members[0].0 != name);
        assert forall|j: int| 0 <= j < rest.len() implies (#[trigger] rest[j]).0 != name by {
            assert(rest[j] == members[j + 1]);
        }
        law_absent_members_have_no_value(rest, name, text, items);
    }
}

/// The tree of a document holds all of the document: its text, its items in order, or its members in
/// order, each with its name.
pub proof fn law_tree_holds_the_document(
    text: String,
    items: Vec<Json>,
    members: Vec<(String, Json)>,
)
    ensures
        Json::Scalar.tree() == JsonTree::Scalar,
        Json::Text(text).tree() == JsonTree::Text(text@),
        Json::Array(items).tree() matches JsonTree::Array(trees) && trees.len() == items@.len()
            && forall|i: int| 0 <= i < items@.len() ==> #[trigger] trees[i] == items@[i].tree(),
        Json::Object(members).tree() matches JsonTree::Object(trees) && trees.len() == members@.len()
            && forall|i: int|
            0 <= i < members@.len() ==> #[trigger] trees[i] == (members@[i].0@, members@[i].1.tree()),
{
}

} // verus!
