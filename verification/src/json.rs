//! JSON values: the parameters and the results of commands.

use vstd::prelude::*;

use crate::text::{same_text, views};

verus! {

/// A JSON value.
#[derive(Debug)]
pub enum Json {
    Null,
    Bool(bool),
    /// A number that is an integer of at most 64 bits.
    Int(i128),
    /// Any other number, by its text.
    Number(String),
    Text(String),
    List(Vec<Json>),
    /// The fields of an object; the first field of a name counts.
    Object(Vec<(String, Json)>),
}

/// What a JSON value holds.
#[verifier::ext_equal]
pub enum JsonView {
    Null,
    Bool(bool),
    Int(int),
    Number(Seq<char>),
    Text(Seq<char>),
    List(Seq<JsonView>),
    Object(Seq<(Seq<char>, JsonView)>),
}

impl View for Json {
    type V = JsonView;

    open spec fn view(&self) -> JsonView
        decreases self,
    {
        match self {
            Json::Null => JsonView::Null,
            Json::Bool(b) => JsonView::Bool(*b),
            Json::Int(n) => JsonView::Int(*n as int),
            Json::Number(s) => JsonView::Number(s@),
            Json::Text(s) => JsonView::Text(s@),
            Json::List(v) => JsonView::List(
                Seq::new(
                    v@.len(),
                    |i: int|
                        if 0 <= i < v@.len() {
                            v@[i].view()
                        } else {
                            JsonView::Null
                        },
                ),
            ),
            Json::Object(v) => JsonView::Object(
                Seq::new(
                    v@.len(),
                    |i: int|
                        (
                            v@[i].0@,
                            if 0 <= i < v@.len() {
                                v@[i].1.view()
                            } else {
                                JsonView::Null
                            },
                        ),
                ),
            ),
        }
    }
}

// ---------------------------------------------------------------------------
// Reading
// ---------------------------------------------------------------------------

/// The first field with a name.
pub open spec fn first_field(fields: Seq<(Seq<char>, JsonView)>, key: Seq<char>) -> Option<JsonView>
    decreases fields.len(),
{
    if fields.len() == 0 {
        None
    } else if fields[0].0 == key {
        Some(fields[0].1)
    } else {
        first_field(fields.drop_first(), key)
    }
}

/// A field that is added behind others is found where none of them has its name,
/// and hides none of them.
pub proof fn law_field_pushed(
    fields: Seq<(Seq<char>, JsonView)>,
    added: (Seq<char>, JsonView),
    key: Seq<char>,
)
    ensures
        first_field(fields, key) is Some ==> first_field(fields.push(added), key) == first_field(
            fields,
            key,
        ),
        first_field(fields, key) is None ==> first_field(fields.push(added), key) == if added.0
            == key {
            Some(added.1)
        } else {
            None
        },
    decreases fields.len(),
{
    let all = fields.push(added);
    if fields.len() == 0 {
        assert(all.drop_first() =~= fields);
    } else {
        assert(all[0] == fields[0]);
        assert(all.drop_first() =~= fields.drop_first().push(added));
        law_field_pushed(fields.drop_first(), added, key);
    }
}

impl JsonView {
    /// The field of an object; nothing for other values.
    pub open spec fn field(self, key: Seq<char>) -> Option<JsonView> {
        match self {
            JsonView::Object(fields) => first_field(fields, key),
            _ => None,
        }
    }

    /// A field that is a text.
    pub open spec fn text_field(self, key: Seq<char>) -> Option<Seq<char>> {
        match self.field(key) {
            Some(JsonView::Text(s)) => Some(s),
            _ => None,
        }
    }

    /// A field that is a truth value.
    pub open spec fn bool_field(self, key: Seq<char>) -> Option<bool> {
        match self.field(key) {
            Some(JsonView::Bool(b)) => Some(b),
            _ => None,
        }
    }

    /// A field that is an integer of 64 bits with a sign.
    pub open spec fn int_field(self, key: Seq<char>) -> Option<int> {
        match self.field(key) {
            Some(JsonView::Int(n)) => if i64::MIN <= n <= i64::MAX {
                Some(n)
            } else {
                None
            },
            _ => None,
        }
    }

    /// The values of a field that is a list; none where there is no such list.
    pub open spec fn list_field(self, key: Seq<char>) -> Seq<JsonView> {
        match self.field(key) {
            Some(JsonView::List(items)) => items,
            _ => Seq::empty(),
        }
    }
}

impl Json {
    /// The field of an object.
    pub fn get(&self, key: &str) -> (r: Option<&Json>)
        ensures
            match self@.field(key@) {
                Some(v) => r matches Some(j) && j@ == v,
                None => r is None,
            },
    {
        match self {
            Json::Object(fields) => {
                let ghost all = self@->Object_0;
                let mut i: usize = 0;
                assert(all.skip(0) =~= all);
                while i < fields.len()
                    invariant
                        i <= fields@.len(),
                        self@ == JsonView::Object(all),
                        all.len() == fields@.len(),
                        forall|k: int|
                            0 <= k < all.len() ==> #[trigger] all[k] == (
                                fields@[k].0@,
                                fields@[k].1@,
                            ),
                        first_field(all.skip(i as int), key@) == first_field(all, key@),
                    decreases fields@.len() - i,
                {
                    assert(all.skip(i as int)[0] == all[i as int]);
                    if same_text(fields[i].0.as_str(), key) {
                        return Some(&fields[i].1);
                    }
                    assert(all.skip(i as int).drop_first() =~= all.skip(i + 1));
                    i = i + 1;
                }
                None
            },
            _ => None,
        }
    }

    pub fn as_str(&self) -> (r: Option<&str>)
        ensures
            match self@ {
                JsonView::Text(t) => r matches Some(s) && s@ == t,
                _ => r is None,
            },
    {
        match self {
            Json::Text(s) => Some(s.as_str()),
            _ => None,
        }
    }

    pub fn is_null(&self) -> (r: bool)
        ensures
            r == (self@ is Null),
    {
        match self {
            Json::Null => true,
            _ => false,
        }
    }

    /// A field that is a text.
    pub fn get_str(&self, key: &str) -> (r: Option<&str>)
        ensures
            match self@.text_field(key@) {
                Some(t) => r matches Some(s) && s@ == t,
                None => r is None,
            },
    {
        match self.get(key) {
            Some(value) => value.as_str(),
            None => None,
        }
    }

    /// A field that is a truth value.
    pub fn get_bool(&self, key: &str) -> (r: Option<bool>)
        ensures
            r == self@.bool_field(key@),
    {
        match self.get(key) {
            Some(Json::Bool(b)) => Some(*b),
            _ => None,
        }
    }

    /// A field that is an integer of 64 bits with a sign.
    pub fn get_i64(&self, key: &str) -> (r: Option<i64>)
        ensures
            match self@.int_field(key@) {
                Some(n) => r matches Some(m) && m == n,
                None => r is None,
            },
    {
        match self.get(key) {
            Some(Json::Int(n)) => {
                let n: i128 = *n;
                if i64::MIN as i128 <= n && n <= i64::MAX as i128 {
                    Some(n as i64)
                } else {
                    None
                }
            },
            _ => None,
        }
    }

    /// A field that is a list.
    pub fn get_list(&self, key: &str) -> (r: Option<&Vec<Json>>)
        ensures
            match r {
                Some(items) => json_views(items@) == self@.list_field(key@),
                None => self@.list_field(key@) == Seq::<JsonView>::empty(),
            },
    {
        match self.get(key) {
            Some(Json::List(items)) => {
                assert(json_views(items@) =~= self@.list_field(key@));
                Some(items)
            },
            _ => None,
        }
    }
}

impl Json {
    /// The field of an object, taken out of it.
    pub fn take(self, key: &str) -> (r: Option<Json>)
        ensures
            match self@.field(key@) {
                Some(v) => r matches Some(j) && j@ == v,
                None => r is None,
            },
    {
        let ghost held = self@;
        match self {
            Json::Object(fields) => {
                let ghost all = held->Object_0;
                let mut fields = fields;
                let n: usize = fields.len();
                let mut i: usize = 0;
                assert(all.skip(0) =~= all);
                while i < n && !same_text(fields[i].0.as_str(), key)
                    invariant
                        i <= n == fields@.len(),
                        all.len() == fields@.len(),
                        forall|k: int|
                            0 <= k < all.len() ==> #[trigger] all[k] == (
                                fields@[k].0@,
                                fields@[k].1@,
                            ),
                        first_field(all.skip(i as int), key@) == first_field(all, key@),
                    decreases n - i,
                {
                    assert(all.skip(i as int)[0] == all[i as int]);
                    assert(all.skip(i as int).drop_first() =~= all.skip(i + 1));
                    i = i + 1;
                }
                if i == n {
                    return None;
                }
                assert(all.skip(i as int)[0] == all[i as int]);
                let pair = fields.remove(i);
                Some(pair.1)
            },
            _ => None,
        }
    }
}

// ---------------------------------------------------------------------------
// Texts
// ---------------------------------------------------------------------------

/// A JSON value of `serde_json`.
#[verifier::external_type_specification]
#[verifier::external_body]
pub struct ExJsonValue(serde_json::Value);

/// What a value of `serde_json` holds: the items of a list and the fields of an
/// object in its order.
pub uninterp spec fn held_by(value: serde_json::Value) -> JsonView;

/// The value that `serde_json` reads in a text, or its message.
pub uninterp spec fn json_reading(text: Seq<char>) -> Result<JsonView, Seq<char>>;

/// The value that was read, or a message.
pub open spec fn value_view(r: Result<serde_json::Value, String>) -> Result<JsonView, Seq<char>> {
    match r {
        Ok(value) => Ok(held_by(value)),
        Err(message) => Err(message@),
    }
}

/// `serde_json::from_str` into a value: the value of the text, or the message of
/// the error.
#[verifier::external_body]
fn parse_value(text: &str) -> (r: Result<serde_json::Value, String>)
    ensures
        value_view(r) == json_reading(text@),
{
    serde_json::from_str(text).map_err(|e: serde_json::Error| e.to_string())
}

/// A value of `serde_json`, kind by kind. A number that `as_i128` does not give
/// as an integer is kept by its text.
#[verifier::external_body]
pub(crate) fn held_json(value: serde_json::Value) -> (r: Json)
    ensures
        r@ == held_by(value),
{
    match value {
        serde_json::Value::Null => Json::Null,
        serde_json::Value::Bool(b) => Json::Bool(b),
        serde_json::Value::Number(n) => match n.as_i128() {
            Some(i) => Json::Int(i),
            None => Json::Number(n.to_string()),
        },
        serde_json::Value::String(s) => Json::Text(s),
        serde_json::Value::Array(v) => Json::List(v.into_iter().map(held_json).collect()),
        serde_json::Value::Object(m) => Json::Object(
            m.into_iter().map(|(k, v)| (k, held_json(v))).collect(),
        ),
    }
}

/// Reads a JSON text.
pub fn read_json(text: &str) -> (r: Result<Json, String>)
    ensures
        match r {
            Ok(j) => json_reading(text@) == Ok::<JsonView, Seq<char>>(j@),
            Err(e) => json_reading(text@) == Err::<JsonView, Seq<char>>(e@),
        },
{
    match parse_value(text) {
        Ok(value) => Ok(held_json(value)),
        Err(message) => Err(message),
    }
}

// ---------------------------------------------------------------------------
// Writing
// ---------------------------------------------------------------------------

/// What the values of a list hold.
pub open spec fn json_views(items: Seq<Json>) -> Seq<JsonView> {
    items.map_values(|j: Json| j@)
}

/// A list of texts.
pub open spec fn text_values(texts: Seq<Seq<char>>) -> JsonView {
    JsonView::List(texts.map_values(|s: Seq<char>| JsonView::Text(s)))
}

pub fn text(s: String) -> (r: Json)
    ensures
        r@ == JsonView::Text(s@),
{
    Json::Text(s)
}

/// A text of the program.
pub fn words(s: &str) -> (r: Json)
    ensures
        r@ == JsonView::Text(s@),
{
    Json::Text(s.to_owned())
}

pub fn truth(b: bool) -> (r: Json)
    ensures
        r@ == JsonView::Bool(b),
{
    Json::Bool(b)
}

pub fn number(n: i128) -> (r: Json)
    ensures
        r@ == JsonView::Int(n as int),
{
    Json::Int(n)
}

pub fn nothing() -> (r: Json)
    ensures
        r@ == JsonView::Null,
{
    Json::Null
}

pub fn list(items: Vec<Json>) -> (r: Json)
    ensures
        r@ == JsonView::List(json_views(items@)),
{
    let ghost held = json_views(items@);
    let r = Json::List(items);
    assert(r@->List_0 =~= held);
    r
}

pub fn texts(items: &Vec<String>) -> (r: Json)
    ensures
        r@ == text_values(views(items@)),
{
    let mut out: Vec<Json> = Vec::new();
    let mut i: usize = 0;
    while i < items.len()
        invariant
            i <= items@.len(),
            out@.len() == i,
            forall|k: int| 0 <= k < i ==> (#[trigger] out@[k])@ == JsonView::Text(items@[k]@),
        decreases items@.len() - i,
    {
        out.push(words(items[i].as_str()));
        i = i + 1;
    }
    assert(json_views(out@) =~= views(items@).map_values(|s: Seq<char>| JsonView::Text(s)));
    list(out)
}

/// No fields, to which others are pushed.
pub open spec fn no_fields() -> Seq<(Seq<char>, JsonView)> {
    Seq::empty()
}

/// The fields of an object that is being written.
pub struct Fields {
    pub list: Vec<(String, Json)>,
}

impl View for Fields {
    type V = Seq<(Seq<char>, JsonView)>;

    open spec fn view(&self) -> Seq<(Seq<char>, JsonView)> {
        self.list@.map_values(|p: (String, Json)| (p.0@, p.1@))
    }
}

impl Fields {
    pub fn new() -> (r: Fields)
        ensures
            r@ == no_fields(),
    {
        let r = Fields { list: Vec::new() };
        assert(r@ =~= no_fields());
        r
    }

    /// The fields and one more.
    pub fn with(self, name: &str, value: Json) -> (r: Fields)
        ensures
            r@ == self@.push((name@, value@)),
    {
        let ghost before = self@;
        let ghost held = value@;
        let mut list = self.list;
        list.push((name.to_owned(), value));
        let r = Fields { list };
        assert(r@ =~= before.push((name@, held)));
        r
    }

    pub fn into_json(self) -> (r: Json)
        ensures
            r@ == JsonView::Object(self@),
    {
        let ghost held = self@;
        let r = Json::Object(self.list);
        assert(r@->Object_0 =~= held);
        r
    }
}

/// A field counts by its type: a text, a truth value or a list only where it is one, an
/// integer where it also fits in 64 bits with a sign. Only objects have fields.
pub proof fn law_typed_fields(value: JsonView, key: Seq<char>, text: Seq<char>, n: int)
    ensures
        value !is Object ==> value.field(key) is None,
        value.text_field(key) == Some(text) <==> value.field(key) == Some(JsonView::Text(text)),
        value.bool_field(key) == Some(true) <==> value.field(key) == Some(JsonView::Bool(true)),
        value.bool_field(key) == Some(false) <==> value.field(key) == Some(JsonView::Bool(false)),
        value.int_field(key) == Some(n) <==> value.field(key) == Some(JsonView::Int(n)) && i64::MIN
            <= n <= i64::MAX,
        value.field(key) matches Some(JsonView::List(items)) ==> value.list_field(key) == items,
        !(value.field(key) matches Some(JsonView::List(_))) ==> value.list_field(key).len() == 0,
{
}

/// A field is found by its name where none before it has that name.
pub proof fn law_field_found(fields: Seq<(Seq<char>, JsonView)>, i: int)
    requires
        0 <= i < fields.len(),
        forall|j: int| 0 <= j < i ==> (#[trigger] fields[j]).0 != fields[i].0,
    ensures
        JsonView::Object(fields).field(fields[i].0) == Some(fields[i].1),
    decreases fields.len(),
{
    if i > 0 {
        let rest = fields.drop_first();
        assert(fields[0].0 != fields[i].0);
        assert(rest[i - 1] == fields[i]);
        assert forall|j: int| 0 <= j < i - 1 implies (#[trigger] rest[j]).0 != rest[i - 1].0 by {
            assert(rest[j] == fields[j + 1]);
        }
        law_field_found(rest, i - 1);
    }
}

} // verus!
