//! JSON values.
use vstd::prelude::*;

verus! {

/// A number of the `serde_json` crate. Only numbers that are not integers are
/// held in this form; they are carried through as they are.
#[verifier::external_type_specification]
#[verifier::external_body]
pub struct ExNumber(serde_json::Number);

/// A tree of JSON values of the `serde_json` crate.
#[verifier::external_type_specification]
#[verifier::external_body]
pub struct ExValue(serde_json::Value);

/// A JSON value. Integers that fit are held as such.
#[derive(Debug)]
pub enum Json {
    Null,
    Bool(bool),
    Unsigned(u64),
    Negative(i64),
    Float(serde_json::Number),
    Text(String),
    Array(Vec<Json>),
    Object(Vec<(String, Json)>),
}

/// What a JSON value is.
pub enum JsonView {
    Null,
    Bool(bool),
    Unsigned(u64),
    Negative(i64),
    Float(serde_json::Number),
    Text(Seq<char>),
    Array(Seq<JsonView>),
    Object(Seq<(Seq<char>, JsonView)>),
}

/// What a JSON value is, down to its leaves.
pub open spec fn json_view(json: Json) -> JsonView
    decreases json,
{
    match json {
        Json::Null => JsonView::Null,
        Json::Bool(b) => JsonView::Bool(b),
        Json::Unsigned(n) => JsonView::Unsigned(n),
        Json::Negative(n) => JsonView::Negative(n),
        Json::Float(n) => JsonView::Float(n),
        Json::Text(s) => JsonView::Text(s@),
        Json::Array(items) => JsonView::Array(
            Seq::new(
                items@.len(),
                |i: int|
                    if 0 <= i < items@.len() {
                        json_view(items@[i])
                    } else {
                        JsonView::Null
                    },
            ),
        ),
        Json::Object(fields) => JsonView::Object(
            Seq::new(
                fields@.len(),
                |i: int|
                    if 0 <= i < fields@.len() {
                        (fields@[i].0@, json_view(fields@[i].1))
                    } else {
                        (Seq::empty(), JsonView::Null)
                    },
            ),
        ),
    }
}

impl View for Json {
    type V = JsonView;

    open spec fn view(&self) -> JsonView {
        json_view(*self)
    }
}

/// What each of several JSON values is.
pub open spec fn json_views(items: Seq<Json>) -> Seq<JsonView> {
    Seq::new(items.len(), |i: int| items[i]@)
}

/// The first field of that name.
pub open spec fn field_in(fields: Seq<(Seq<char>, JsonView)>, name: Seq<char>) -> Option<JsonView>
    decreases fields.len(),
{
    if fields.len() == 0 {
        None
    } else if fields[0].0 == name {
        Some(fields[0].1)
    } else {
        field_in(fields.drop_first(), name)
    }
}

impl JsonView {
    /// An object that holds one more field.
    pub open spec fn with(self, name: Seq<char>, value: JsonView) -> JsonView {
        match self {
            JsonView::Object(fields) => JsonView::Object(fields.push((name, value))),
            _ => self,
        }
    }

    /// The field of that name, where this is an object that has one.
    pub open spec fn field(self, name: Seq<char>) -> Option<JsonView> {
        match self {
            JsonView::Object(fields) => field_in(fields, name),
            _ => None,
        }
    }

    /// The value of an integer that is not negative.
    pub open spec fn unsigned(self) -> Option<u64> {
        match self {
            JsonView::Unsigned(n) => Some(n),
            _ => None,
        }
    }

    /// A truth value.
    pub open spec fn truth(self) -> Option<bool> {
        match self {
            JsonView::Bool(b) => Some(b),
            _ => None,
        }
    }

    /// A text.
    pub open spec fn text(self) -> Option<Seq<char>> {
        match self {
            JsonView::Text(s) => Some(s),
            _ => None,
        }
    }
}

/// An object without fields.
pub open spec fn object() -> JsonView {
    JsonView::Object(Seq::empty())
}

/// What a tree of the `serde_json` crate holds.
pub uninterp spec fn contents(value: serde_json::Value) -> JsonView;

/// The tree of the `serde_json` crate that a text encodes, or what is wrong with it.
pub uninterp spec fn tree_of_text(text: Seq<char>) -> Result<serde_json::Value, Seq<char>>;

/// The tree of the `serde_json` crate for a value.
pub uninterp spec fn tree(json: JsonView) -> serde_json::Value;

/// The text that encodes a tree of the `serde_json` crate.
pub uninterp spec fn tree_text(value: serde_json::Value) -> Seq<char>;

/// The value that a text encodes, or what is wrong with it.
pub open spec fn json_of_text(text: Seq<char>) -> Result<JsonView, Seq<char>> {
    match tree_of_text(text) {
        Ok(value) => Ok(contents(value)),
        Err(fault) => Err(fault),
    }
}

/// What came of an attempt to parse a text.
pub open spec fn parsed(r: Result<Json, String>) -> Result<JsonView, Seq<char>> {
    match r {
        Ok(json) => Ok(json@),
        Err(fault) => Err(fault@),
    }
}

/// The text that encodes a value.
pub open spec fn text_of_json(json: JsonView) -> Seq<char> {
    tree_text(tree(json))
}

/// Takes the contents of a tree of the `serde_json` crate over, node by node.
#[verifier::external_body]
fn take_over(value: serde_json::Value) -> (r: Json)
    ensures
        r@ == contents(value),
{
    match value {
        serde_json::Value::Null => Json::Null,
        serde_json::Value::Bool(b) => Json::Bool(b),
        serde_json::Value::Number(n) => match (n.as_u64(), n.as_i64()) {
            (Some(n), _) => Json::Unsigned(n),
            (None, Some(n)) => Json::Negative(n),
            (None, None) => Json::Float(n),
        },
        serde_json::Value::String(s) => Json::Text(s),
        serde_json::Value::Array(a) => Json::Array(a.into_iter().map(take_over).collect()),
        serde_json::Value::Object(o) => {
            Json::Object(o.into_iter().map(|(k, v)| (k, take_over(v))).collect())
        },
    }
}

/// Parses a text with `serde_json::from_str`. What comes back, with an error by the
/// text that it displays, is a function of the text alone; which texts encode what
/// is not stated.
#[verifier::external_body]
fn read_tree(text: &str) -> (r: Result<serde_json::Value, String>)
    ensures
        (match r {
            Ok(value) => tree_of_text(text@) == Ok::<serde_json::Value, Seq<char>>(value),
            Err(fault) => tree_of_text(text@) == Err::<serde_json::Value, Seq<char>>(fault@),
        }),
{
    serde_json::from_str(text).map_err(|e| e.to_string())
}

/// Builds a tree of the `serde_json` crate, node by node. It is a function of
/// the value alone; the crate keeps the fields of an object in an order of its
/// own.
#[verifier::external_body]
fn hand_over(json: &Json) -> (r: serde_json::Value)
    ensures
        r == tree(json@),
{
    match json {
        Json::Null => serde_json::Value::Null,
        Json::Bool(b) => serde_json::Value::Bool(*b),
        Json::Unsigned(n) => serde_json::Value::from(*n),
        Json::Negative(n) => serde_json::Value::from(*n),
        Json::Float(n) => serde_json::Value::Number(n.clone()),
        Json::Text(s) => serde_json::Value::String(s.clone()),
        Json::Array(a) => serde_json::Value::Array(a.iter().map(hand_over).collect()),
        Json::Object(o) => {
            serde_json::Value::Object(o.iter().map(|(k, v)| (k.clone(), hand_over(v))).collect())
        },
    }
}

/// Encodes a tree with `to_string` of `serde_json::Value`, without white space
/// between tokens. The text is a function of the tree alone; which text it is on
/// a given tree is not stated.
#[verifier::external_body]
fn write_tree(value: &serde_json::Value) -> (r: String)
    ensures
        r@ == tree_text(*value),
{
    value.to_string()
}

/// Parses a text.
pub fn parse_json(text: &str) -> (r: Result<Json, String>)
    ensures
        parsed(r) == json_of_text(text@),
{
    match read_tree(text) {
        Ok(value) => Ok(take_over(value)),
        Err(fault) => Err(fault),
    }
}

/// Encodes a value.
pub fn render_json(json: &Json) -> (r: String)
    ensures
        r@ == text_of_json(json@),
{
    write_tree(&hand_over(json))
}

/// Copies a number with `clone` of `serde_json::Number`.
#[verifier::external_body]
fn copy_number(n: &serde_json::Number) -> (r: serde_json::Number)
    ensures
        r == *n,
{
    n.clone()
}

impl Json {
    /// What a tree of the `serde_json` crate holds.
    pub fn from_tree(value: serde_json::Value) -> (r: Json)
        ensures
            r@ == contents(value),
    {
        take_over(value)
    }

    /// A text.
    pub fn text(s: &str) -> (r: Json)
        ensures
            r@ == JsonView::Text(s@),
    {
        Json::Text(s.to_string())
    }

    /// An object without fields.
    pub fn empty_object() -> (r: Json)
        ensures
            r@ == object(),
    {
        let fields: Vec<(String, Json)> = Vec::new();
        let r: Json = Json::Object(fields);
        assert(r@->Object_0 =~= Seq::empty());
        r
    }

    /// An array of these items.
    pub fn array(items: Vec<Json>) -> (r: Json)
        ensures
            r@ == JsonView::Array(json_views(items@)),
    {
        let r: Json = Json::Array(items);
        assert(r@->Array_0 =~= json_views(items@));
        r
    }

    /// Adds a field to an object.
    pub fn with(self, name: &str, value: Json) -> (r: Json)
        requires
            self is Object,
        ensures
            r is Object,
            r@ == self@.with(name@, value@),
    {
        let ghost before = self@;
        match self {
            Json::Object(fields) => {
                let mut fields: Vec<(String, Json)> = fields;
                fields.push((name.to_string(), value));
                let r: Json = Json::Object(fields);
                assert(r@->Object_0 =~= before->Object_0.push((name@, value@)));
                r
            },
            other => other,
        }
    }

    /// An integer.
    pub fn integer(n: i64) -> (r: Json)
        ensures
            r@ == integer(n as int),
    {
        if n >= 0 {
            Json::Unsigned(n as u64)
        } else {
            Json::Negative(n)
        }
    }

    /// The field of that name, where this is an object that has one.
    pub fn get(&self, name: &str) -> (r: Option<&Json>)
        ensures
            (match r {
                Some(json) => self@.field(name@) == Some(json@),
                None => self@.field(name@) is None,
            }),
    {
        match self {
            Json::Object(fields) => {
                let ghost all = self@->Object_0;
                let key: String = name.to_string();
                let mut i: usize = 0;
                proof {
                    assert(all.skip(0) =~= all);
                }
                while i < fields.len()
                    invariant
                        *self == Json::Object(*fields),
                        all == self@->Object_0,
                        all.len() == fields@.len(),
                        key@ == name@,
                        i <= fields@.len(),
                        field_in(all, name@) == field_in(all.skip(i as int), name@),
                    decreases fields@.len() - i,
                {
                    proof {
                        assert(all[i as int] == (fields@[i as int].0@, fields@[i as int].1@));
                        assert(all.skip(i as int)[0] == all[i as int]);
                        assert(all.skip(i as int).drop_first() =~= all.skip(i + 1));
                    }
                    if fields[i].0 == key {
                        return Some(&fields[i].1);
                    }
                    i = i + 1;
                }
                None
            },
            _ => None,
        }
    }

    /// A copy.
    pub fn copy(&self) -> (r: Json)
        ensures
            r@ == self@,
        decreases self,
    {
        match self {
            Json::Null => Json::Null,
            Json::Bool(b) => Json::Bool(*b),
            Json::Unsigned(n) => Json::Unsigned(*n),
            Json::Negative(n) => Json::Negative(*n),
            Json::Float(n) => Json::Float(copy_number(n)),
            Json::Text(s) => Json::Text(s.clone()),
            Json::Array(items) => {
                let mut copies: Vec<Json> = Vec::new();
                let mut i: usize = 0;
                while i < items.len()
                    invariant
                        *self == Json::Array(*items),
                        i <= items@.len(),
                        copies@.len() == i,
                        forall|j: int| 0 <= j < i ==> (#[trigger] copies@[j])@ == items@[j]@,
                    decreases items@.len() - i,
                {
                    assert(decreases_to!(*self => self->Array_0@[i as int]));
                    copies.push(items[i].copy());
                    i = i + 1;
                }
                let r: Json = Json::Array(copies);
                assert(r@->Array_0 =~= self@->Array_0);
                r
            },
            Json::Object(fields) => {
                let mut copies: Vec<(String, Json)> = Vec::new();
                let mut i: usize = 0;
                while i < fields.len()
                    invariant
                        *self == Json::Object(*fields),
                        i <= fields@.len(),
                        copies@.len() == i,
                        forall|j: int|
                            0 <= j < i ==> (#[trigger] copies@[j]).0@ == fields@[j].0@
                                && copies@[j].1@ == fields@[j].1@,
                    decreases fields@.len() - i,
                {
                    assert(decreases_to!(*self => self->Object_0@[i as int].1));
                    copies.push((fields[i].0.clone(), fields[i].1.copy()));
                    i = i + 1;
                }
                let r: Json = Json::Object(copies);
                assert(r@->Object_0 =~= self@->Object_0);
                r
            },
        }
    }
}

/// An integer as a JSON value.
pub open spec fn integer(n: int) -> JsonView {
    if n >= 0 {
        JsonView::Unsigned(n as u64)
    } else {
        JsonView::Negative(n as i64)
    }
}

} // verus!
