//! The frontmatter of Markdown files: named fields in YAML above the body.

use indexmap::IndexMap;
use serde_yaml::Value;
use vstd::prelude::*;

use crate::daily_logic::opt_string_view;
use crate::text::views;

verus! {

/// A YAML value of `serde_yaml`.
#[verifier::external_type_specification]
#[verifier::external_body]
pub struct ExYamlValue(serde_yaml::Value);

/// The ordered map of `indexmap`.
#[verifier::external_type_specification]
#[verifier::external_body]
#[verifier::reject_recursive_types(K)]
#[verifier::reject_recursive_types(V)]
#[verifier::reject_recursive_types(S)]
pub struct ExIndexMap<K, V, S>(indexmap::IndexMap<K, V, S>);

/// The value of a field.
pub enum Field {
    /// A string.
    Text(Seq<char>),
    /// A sequence.
    List(Seq<Field>),
    /// Nothing.
    Null,
    /// A truth value.
    Bool(bool),
    /// A whole number.
    Number(int),
    /// Any other value: the string under its tags, if it is one, and what tells
    /// it apart from other values.
    Other(Option<Seq<char>>, Seq<char>),
}

impl Field {
    /// The string that a value is, under whatever tags.
    pub open spec fn text(self) -> Option<Seq<char>> {
        match self {
            Field::Text(s) => Some(s),
            Field::Other(s, _) => s,
            _ => None,
        }
    }
}

/// The fields of a map, in its order.
pub uninterp spec fn frontmatter_fields(map: IndexMap<String, Value>) -> Seq<(Seq<char>, Field)>;

/// The value of the first field with a name.
pub open spec fn lookup(fields: Seq<(Seq<char>, Field)>, key: Seq<char>) -> Option<Field>
    decreases fields.len(),
{
    if fields.len() == 0 {
        None
    } else if fields[0].0 == key {
        Some(fields[0].1)
    } else {
        lookup(fields.drop_first(), key)
    }
}

/// The fields with one set: in its place, or at the end where it is new.
pub open spec fn with_field(
    fields: Seq<(Seq<char>, Field)>,
    key: Seq<char>,
    value: Field,
) -> Seq<(Seq<char>, Field)>
    decreases fields.len(),
{
    if fields.len() == 0 {
        seq![(key, value)]
    } else if fields[0].0 == key {
        seq![(key, value)] + fields.drop_first()
    } else {
        seq![fields[0]] + with_field(fields.drop_first(), key, value)
    }
}

/// The fields without one.
pub open spec fn without_field(fields: Seq<(Seq<char>, Field)>, key: Seq<char>) -> Seq<
    (Seq<char>, Field),
>
    decreases fields.len(),
{
    if fields.len() == 0 {
        fields
    } else if fields[0].0 == key {
        fields.drop_first()
    } else {
        seq![fields[0]] + without_field(fields.drop_first(), key)
    }
}

/// Whether no two fields have the same name.
pub open spec fn distinct_keys(fields: Seq<(Seq<char>, Field)>) -> bool {
    forall|i: int, j: int|
        0 <= i < j < fields.len() ==> (#[trigger] fields[i]).0 != (#[trigger] fields[j]).0
}

/// The string that a field holds, under whatever tags.
pub open spec fn text_of(fields: Seq<(Seq<char>, Field)>, key: Seq<char>) -> Option<Seq<char>> {
    match lookup(fields, key) {
        Some(f) => f.text(),
        None => None,
    }
}

/// The strings among the values of a sequence.
pub open spec fn strings_of(items: Seq<Field>) -> Seq<Seq<char>>
    decreases items.len(),
{
    if items.len() == 0 {
        Seq::empty()
    } else {
        let before = strings_of(items.drop_last());
        match items.last().text() {
            Some(s) => before.push(s),
            None => before,
        }
    }
}

/// The strings of a field that is a sequence; none for any other field.
pub open spec fn sequence_of(fields: Seq<(Seq<char>, Field)>, key: Seq<char>) -> Seq<Seq<char>> {
    match lookup(fields, key) {
        Some(Field::List(items)) => strings_of(items),
        _ => Seq::empty(),
    }
}

/// A sequence of strings.
pub open spec fn text_list(texts: Seq<Seq<char>>) -> Field {
    Field::List(texts.map_values(|s: Seq<char>| Field::Text(s)))
}

// ---------------------------------------------------------------------------
// Laws of fields
// ---------------------------------------------------------------------------

/// A field that is set holds its value, and the others are as before.
pub proof fn law_set_field(
    fields: Seq<(Seq<char>, Field)>,
    key: Seq<char>,
    value: Field,
    other: Seq<char>,
)
    ensures
        lookup(with_field(fields, key, value), key) == Some(value),
        other != key ==> lookup(with_field(fields, key, value), other) == lookup(fields, other),
    decreases fields.len(),
{
    let all = with_field(fields, key, value);
    if fields.len() == 0 {
        assert(all.drop_first() =~= Seq::empty());
        assert(lookup(all.drop_first(), other) is None);
    } else if fields[0].0 == key {
        assert(all[0] == (key, value));
        assert(all.drop_first() =~= fields.drop_first());
    } else {
        law_set_field(fields.drop_first(), key, value, other);
        assert(all[0] == fields[0]);
        assert(all.drop_first() =~= with_field(fields.drop_first(), key, value));
    }
}

/// A field that is removed is gone, and the others are as before.
pub proof fn law_remove_field(
    fields: Seq<(Seq<char>, Field)>,
    key: Seq<char>,
    other: Seq<char>,
)
    requires
        distinct_keys(fields),
    ensures
        lookup(without_field(fields, key), key) is None,
        other != key ==> lookup(without_field(fields, key), other) == lookup(fields, other),
    decreases fields.len(),
{
    let all = without_field(fields, key);
    if fields.len() > 0 {
        let rest = fields.drop_first();
        assert(distinct_keys(rest)) by {
            assert forall|i: int, j: int| 0 <= i < j < rest.len() implies (#[trigger] rest[i]).0 != (
            #[trigger] rest[j]).0 by {
                assert(rest[i] == fields[i + 1] && rest[j] == fields[j + 1]);
            }
        }
        if fields[0].0 == key {
            lemma_absent(rest, key, fields);
        } else {
            law_remove_field(rest, key, other);
            assert(all[0] == fields[0]);
            assert(all.drop_first() =~= without_field(rest, key));
        }
    }
}

proof fn lemma_absent(
    rest: Seq<(Seq<char>, Field)>,
    key: Seq<char>,
    fields: Seq<(Seq<char>, Field)>,
)
    requires
        distinct_keys(fields),
        fields.len() > rest.len(),
        fields[0].0 == key,
        rest == fields.skip(fields.len() - rest.len()),
    ensures
        lookup(rest, key) is None,
    decreases rest.len(),
{
    if rest.len() > 0 {
        assert(rest[0] == fields[fields.len() - rest.len()]);
        assert(fields[0].0 != fields[fields.len() - rest.len()].0);
        assert(rest.drop_first() =~= fields.skip(fields.len() - rest.len() + 1));
        lemma_absent(rest.drop_first(), key, fields);
    }
}

/// Plain fields stay plain when a plain value is set.
pub proof fn law_plain_fields(
    fields: Seq<(Seq<char>, Field)>,
    key: Seq<char>,
    value: Field,
)
    requires
        plain_fields(fields),
        plain(key),
        plain_value(value),
    ensures
        plain_fields(with_field(fields, key, value)),
        forall|i: int|
            0 <= i < with_field(fields, key, value).len() ==> (#[trigger] with_field(
                fields,
                key,
                value,
            )[i]).0 == key || fields.contains(with_field(fields, key, value)[i]),
    decreases fields.len(),
{
    let all = with_field(fields, key, value);
    if fields.len() > 0 {
        let rest = fields.drop_first();
        assert forall|i: int, j: int| 0 <= i < j < rest.len() implies (#[trigger] rest[i]).0 != (
        #[trigger] rest[j]).0 by {
            assert(rest[i] == fields[i + 1] && rest[j] == fields[j + 1]);
        }
        assert forall|i: int| 0 <= i < rest.len() implies plain((#[trigger] rest[i]).0)
            && plain_value(rest[i].1) by {
            assert(rest[i] == fields[i + 1]);
        }
        if fields[0].0 == key {
            assert forall|i: int| 0 < i < all.len() implies #[trigger] all[i] == fields[i] by {}
            assert forall|i: int| 0 <= i < all.len() implies (#[trigger] all[i]).0 == key
                || fields.contains(all[i]) by {
                if i > 0 {
                    assert(fields.contains(fields[i]));
                }
            }
        } else {
            law_plain_fields(rest, key, value);
            let tail = with_field(rest, key, value);
            assert forall|i: int| 0 < i < all.len() implies #[trigger] all[i] == tail[i - 1] by {}
            assert forall|i: int| 0 <= i < all.len() implies (#[trigger] all[i]).0 == key
                || fields.contains(all[i]) by {
                if i == 0 {
                    assert(fields.contains(fields[0]));
                } else if tail[i - 1].0 != key {
                    let k = rest.index_of(tail[i - 1]);
                    assert(fields[k + 1] == tail[i - 1]);
                    assert(fields.contains(fields[k + 1]));
                }
            }
            assert forall|i: int, j: int| 0 <= i < j < all.len() implies (#[trigger] all[i]).0 != (
            #[trigger] all[j]).0 by {
                if i == 0 && tail[j - 1].0 != key {
                    let k = rest.index_of(tail[j - 1]);
                    assert(rest[k] == fields[k + 1]);
                }
            }
        }
    }
}

/// The strings of a sequence of strings are those strings.
pub proof fn law_text_list(texts: Seq<Seq<char>>)
    ensures
        strings_of(text_list(texts)->List_0) == texts,
    decreases texts.len(),
{
    let items = text_list(texts)->List_0;
    if texts.len() > 0 {
        law_text_list(texts.drop_last());
        assert(items.drop_last() =~= text_list(texts.drop_last())->List_0);
        assert(strings_of(items) =~= texts);
    }
}

/// The strings of a sequence are those of its values that are strings, in order.
pub proof fn law_strings_pushed(items: Seq<Field>, item: Field)
    ensures
        strings_of(Seq::<Field>::empty()) == Seq::<Seq<char>>::empty(),
        strings_of(items.push(item)) == match item.text() {
            Some(text) => strings_of(items).push(text),
            None => strings_of(items),
        },
{
    assert(items.push(item).drop_last() =~= items);
}

/// A field counts as a text or as a sequence only where it is one.
pub proof fn law_typed_field(fields: Seq<(Seq<char>, Field)>, key: Seq<char>, text: Seq<char>)
    ensures
        lookup(fields, key) == Some(Field::Text(text)) ==> text_of(fields, key) == Some(text),
        lookup(fields, key) is None ==> text_of(fields, key) is None && sequence_of(
            fields,
            key,
        ).len() == 0,
        lookup(fields, key) matches Some(Field::Text(_)) ==> sequence_of(fields, key).len() == 0,
        lookup(fields, key) matches Some(Field::List(items)) ==> text_of(fields, key) is None
            && sequence_of(fields, key) == strings_of(items),
{
}

// ---------------------------------------------------------------------------
// Maps of fields
// ---------------------------------------------------------------------------

/// A value to be set.
pub enum NewField {
    Text(String),
    List(Vec<String>),
}

impl View for NewField {
    type V = Field;

    open spec fn view(&self) -> Field {
        match self {
            NewField::Text(s) => Field::Text(s@),
            NewField::List(v) => text_list(views(v@)),
        }
    }
}

/// `IndexMap::new`: a map without fields.
#[verifier::external_body]
pub(crate) fn no_fields() -> (r: IndexMap<String, Value>)
    ensures
        frontmatter_fields(r) == Seq::<(Seq<char>, Field)>::empty(),
{
    IndexMap::new()
}

/// What can be read of a value.
pub enum FieldValue {
    /// A string.
    Text(String),
    /// The values of a sequence, as far as they are strings under whatever tags.
    List(Vec<Option<String>>),
    /// Any other value, if it is a string under tags.
    Other(Option<String>),
}

impl FieldValue {
    /// Whether this is what can be read of a value.
    pub open spec fn shows(self, field: Field) -> bool {
        match (self, field) {
            (FieldValue::Text(s), Field::Text(t)) => s@ == t,
            (FieldValue::List(v), Field::List(items)) => v@.len() == items.len() && forall|i: int|
                0 <= i < items.len() ==> opt_string_view(#[trigger] v@[i]) == items[i].text(),
            (FieldValue::Other(s), Field::Other(t, _)) => opt_string_view(s) == t,
            (FieldValue::Other(s), Field::Null) => s is None,
            (FieldValue::Other(s), Field::Bool(_)) => s is None,
            (FieldValue::Other(s), Field::Number(_)) => s is None,
            _ => false,
        }
    }
}

/// `IndexMap::get`: the value of a field, if there is one. A value is told apart
/// by its variant; `Value::as_str` gives the string under the tags of a value.
#[verifier::external_body]
pub(crate) fn get_field(map: &IndexMap<String, Value>, key: &str) -> (r: Option<FieldValue>)
    ensures
        match lookup(frontmatter_fields(*map), key@) {
            Some(field) => r is Some && r->0.shows(field),
            None => r is None,
        },
{
    let text = |v: &Value| v.as_str().map(|s| s.to_string());
    map.get(key).map(|value| match value {
        Value::String(s) => FieldValue::Text(s.clone()),
        Value::Sequence(items) => FieldValue::List(items.iter().map(text).collect()),
        other => FieldValue::Other(text(other)),
    })
}

/// The string that a field holds, under whatever tags.
pub fn text_field(map: &IndexMap<String, Value>, key: &str) -> (r: Option<String>)
    ensures
        opt_string_view(r) == text_of(frontmatter_fields(*map), key@),
{
    match get_field(map, key) {
        Some(FieldValue::Text(s)) => Some(s),
        Some(FieldValue::Other(s)) => s,
        _ => None,
    }
}

/// The values of a field that is a sequence, as far as they are strings.
fn list_values(map: &IndexMap<String, Value>, key: &str) -> (r: Option<Vec<Option<String>>>)
    ensures
        match lookup(frontmatter_fields(*map), key@) {
            Some(Field::List(items)) => r is Some && r->0@.len() == items.len() && forall|i: int|
                0 <= i < items.len() ==> opt_string_view(#[trigger] r->0@[i]) == items[i].text(),
            _ => r is None,
        },
{
    match get_field(map, key) {
        Some(FieldValue::List(v)) => Some(v),
        _ => None,
    }
}

/// Whether a field is a sequence.
pub fn is_sequence(map: &IndexMap<String, Value>, key: &str) -> (r: bool)
    ensures
        r == (lookup(frontmatter_fields(*map), key@) matches Some(Field::List(_))),
{
    match get_field(map, key) {
        Some(FieldValue::List(_)) => true,
        _ => false,
    }
}

/// `IndexMap::insert`: a field that is there keeps its place and gets the new
/// value, a new one comes last.
#[verifier::external_body]
pub(crate) fn set_field(map: &mut IndexMap<String, Value>, key: &str, value: NewField)
    ensures
        frontmatter_fields(*final(map)) == with_field(frontmatter_fields(*old(map)), key@, value@),
{
    let value = match value {
        NewField::Text(s) => Value::String(s),
        NewField::List(v) => Value::Sequence(v.into_iter().map(Value::String).collect()),
    };
    map.insert(key.to_string(), value);
}

/// `IndexMap::shift_remove`: the field is taken out, and the others keep their
/// order. A string without a tag is handed back.
#[verifier::external_body]
pub(crate) fn take_text_field(map: &mut IndexMap<String, Value>, key: &str) -> (r: Option<String>)
    ensures
        frontmatter_fields(*final(map)) == without_field(frontmatter_fields(*old(map)), key@),
        opt_string_view(r) == match lookup(frontmatter_fields(*old(map)), key@) {
            Some(Field::Text(s)) => Some(s),
            _ => None,
        },
{
    match map.shift_remove(key) {
        Some(Value::String(s)) => Some(s),
        _ => None,
    }
}

// ---------------------------------------------------------------------------
// Markdown files
// ---------------------------------------------------------------------------

/// The fields and the body of a file, or the message of the error, as
/// `diaryx_core::frontmatter::parse_or_empty` gives them.
pub uninterp spec fn markdown_reading(content: Seq<char>) -> Result<
    (Seq<(Seq<char>, Field)>, Seq<char>),
    Seq<char>,
>;

/// The text of a file, or the message of the error, as
/// `diaryx_core::frontmatter::serialize` gives it.
pub uninterp spec fn markdown_text(fields: Seq<(Seq<char>, Field)>, body: Seq<char>) -> Result<
    Seq<char>,
    Seq<char>,
>;

/// A line feed, a line separator or a paragraph separator.
pub open spec fn ends_line(c: char) -> bool {
    c == '\n' || c as u32 == 0x2028 || c as u32 == 0x2029
}

/// Whether a text is one line.
pub open spec fn plain(s: Seq<char>) -> bool {
    forall|i: int| 0 <= i < s.len() ==> !ends_line(#[trigger] s[i])
}

/// A plain string, nothing, a truth value or a whole number.
pub open spec fn plain_scalar(value: Field) -> bool {
    match value {
        Field::Text(s) => plain(s),
        Field::List(_) => false,
        Field::Other(_, _) => false,
        _ => true,
    }
}

/// Plain scalars only.
pub open spec fn plain_items(items: Seq<Field>) -> bool {
    forall|i: int| 0 <= i < items.len() ==> plain_scalar(#[trigger] items[i])
}

/// A plain scalar, or a sequence of them.
pub open spec fn plain_value(value: Field) -> bool {
    match value {
        Field::List(items) => plain_items(items),
        _ => plain_scalar(value),
    }
}

/// Fields with plain names and plain values, no name twice.
pub open spec fn plain_fields(fields: Seq<(Seq<char>, Field)>) -> bool {
    distinct_keys(fields) && forall|i: int|
        0 <= i < fields.len() ==> plain((#[trigger] fields[i]).0) && plain_value(fields[i].1)
}

/// Whether a file starts with the line that opens frontmatter.
pub open spec fn opens_frontmatter(content: Seq<char>) -> bool {
    "---\n"@.is_prefix_of(content) || "---\r\n"@.is_prefix_of(content)
}

/// What was read: fields and body, or a message.
pub open spec fn file_view(r: Result<(IndexMap<String, Value>, String), String>) -> Result<
    (Seq<(Seq<char>, Field)>, Seq<char>),
    Seq<char>,
> {
    match r {
        Ok(file) => Ok((frontmatter_fields(file.0), file.1@)),
        Err(message) => Err(message@),
    }
}

/// A file without fields.
pub open spec fn bare_file(content: Seq<char>) -> Result<
    (Seq<(Seq<char>, Field)>, Seq<char>),
    Seq<char>,
> {
    Ok((Seq::empty(), content))
}

/// A text or a message.
pub open spec fn text_view(r: Result<String, String>) -> Result<Seq<char>, Seq<char>> {
    match r {
        Ok(content) => Ok(content@),
        Err(message) => Err(message@),
    }
}

/// Whether a text reads as these fields and this body.
pub open spec fn reads_as(
    text: Result<Seq<char>, Seq<char>>,
    fields: Seq<(Seq<char>, Field)>,
    body: Seq<char>,
) -> bool {
    text matches Ok(content) && markdown_reading(content) == Ok::<
        (Seq<(Seq<char>, Field)>, Seq<char>),
        Seq<char>,
    >((fields, body))
}

/// `diaryx_core::frontmatter::parse_or_empty`: the fields and the body of a file.
/// A file that does not open with frontmatter has no fields, and is all body. No
/// field is there twice.
#[verifier::external_body]
pub(crate) fn read_markdown(content: &str) -> (r: Result<
    (IndexMap<String, Value>, String),
    String,
>)
    ensures
        file_view(r) == markdown_reading(content@),
        file_view(r) matches Ok(file) ==> distinct_keys(file.0),
        !opens_frontmatter(content@) ==> file_view(r) == bare_file(content@),
{
    match diaryx_core::frontmatter::parse_or_empty(content) {
        Ok(parsed) => Ok((parsed.frontmatter, parsed.body)),
        Err(e) => Err(e.to_string()),
    }
}

/// `diaryx_core::frontmatter::serialize`: the text of a file with these fields
/// and this body. Plain fields can always be written, and `parse_or_empty` gives
/// back what was written: a text of one line is written bare or quoted, and what
/// cannot stand in quotes as it is has an escape there. What becomes of texts of
/// several lines, of floating-point numbers, of mappings, of tagged values and of
/// sequences within sequences is not said here.
#[verifier::external_body]
pub(crate) fn write_text(map: &IndexMap<String, Value>, body: &str) -> (r: Result<String, String>)
    ensures
        text_view(r) == markdown_text(frontmatter_fields(*map), body@),
        plain_fields(frontmatter_fields(*map)) ==> reads_as(
            text_view(r),
            frontmatter_fields(*map),
            body@,
        ),
{
    diaryx_core::frontmatter::serialize(map, body).map_err(|e| e.to_string())
}

/// The fields and the body of a file. A file that does not open with frontmatter
/// has no fields, and is all body.
pub fn parse_markdown(content: &str) -> (r: Result<(IndexMap<String, Value>, String), String>)
    ensures
        file_view(r) == markdown_reading(content@),
        file_view(r) matches Ok(file) ==> distinct_keys(file.0),
        !opens_frontmatter(content@) ==> file_view(r) == bare_file(content@),
{
    read_markdown(content)
}

/// The text of a file with these fields and this body. Where the fields are
/// plain, it reads as them again.
pub fn serialize_markdown(map: &IndexMap<String, Value>, body: &str) -> (r: Result<String, String>)
    ensures
        text_view(r) == markdown_text(frontmatter_fields(*map), body@),
        plain_fields(frontmatter_fields(*map)) ==> reads_as(
            markdown_text(frontmatter_fields(*map), body@),
            frontmatter_fields(*map),
            body@,
        ),
{
    write_text(map, body)
}

/// The strings of a sequence; none for any other field.
pub fn ensure_sequence(map: &IndexMap<String, Value>, key: &str) -> (r: Vec<String>)
    ensures
        views(r@) == sequence_of(frontmatter_fields(*map), key@),
{
    let mut out: Vec<String> = Vec::new();
    assert(views(out@) =~= Seq::empty());
    match list_values(map, key) {
        Some(items) => {
            let ghost held = lookup(frontmatter_fields(*map), key@)->0->List_0;
            let mut i: usize = 0;
            assert(held.take(0) =~= Seq::empty());
            while i < items.len()
                invariant
                    i <= items@.len(),
                    items@.len() == held.len(),
                    forall|k: int|
                        0 <= k < held.len() ==> opt_string_view(#[trigger] items@[k])
                            == held[k].text(),
                    views(out@) == strings_of(held.take(i as int)),
                decreases items@.len() - i,
            {
                let ghost part = held.take(i + 1);
                assert(part.drop_last() =~= held.take(i as int));
                assert(part.last() == held[i as int]);
                assert(opt_string_view(items@[i as int]) == held[i as int].text());
                match &items[i] {
                    Some(s) => {
                        let ghost before = views(out@);
                        out.push(s.clone());
                        assert(views(out@) =~= before.push(s@));
                    },
                    None => {},
                }
                i = i + 1;
            }
            assert(held.take(i as int) =~= held);
        },
        None => {},
    }
    out
}

/// Sets a field to a sequence of strings.
pub fn save_sequence(map: &mut IndexMap<String, Value>, key: &str, values: Vec<String>)
    ensures
        frontmatter_fields(*final(map)) == with_field(
            frontmatter_fields(*old(map)),
            key@,
            text_list(views(values@)),
        ),
{
    set_field(map, key, NewField::List(values));
}

} // verus!
