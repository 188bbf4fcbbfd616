//! JSON documents as plain values.
use crate::text::{
    decimal, decimal_text, lemma_text_less_total, lemma_text_less_transitive, same_text, text_less,
};
use vstd::prelude::*;

verus! {

/// A JSON number: the integers it stands for, if it is one, and its decimal text.
#[derive(Debug, Clone)]
pub struct JsonNumber {
    pub unsigned: Option<u64>,
    pub signed: Option<i64>,
    pub text: String,
}

/// A JSON document. The members of an object are listed in the order of their keys.
#[derive(Debug)]
pub enum Json {
    Null,
    Bool(bool),
    Number(JsonNumber),
    Text(String),
    Array(Vec<Json>),
    Object(Vec<(String, Json)>),
}

/// The mathematical value of a [`Json`].
pub enum JsonView {
    Null,
    Bool(bool),
    Number { unsigned: Option<u64>, signed: Option<i64>, text: Seq<char> },
    Text(Seq<char>),
    Array(Seq<JsonView>),
    Object(Seq<(Seq<char>, JsonView)>),
}

/// The mathematical value of a document.
pub open spec fn json_view(document: Json) -> JsonView
    decreases document,
{
    match document {
        Json::Null => JsonView::Null,
        Json::Bool(b) => JsonView::Bool(b),
        Json::Number(n) => JsonView::Number {
            unsigned: n.unsigned,
            signed: n.signed,
            text: n.text@,
        },
        Json::Text(s) => JsonView::Text(s@),
        Json::Array(items) => JsonView::Array(
            Seq::new(
                items@.len(),
                |i: int|
                    if 0 <= i < items@.len() {
                        json_view(items@[i])
                    } else {
                        JsonView::Null
                    },
            ),
        ),
        Json::Object(members) => JsonView::Object(
            Seq::new(
                members@.len(),
                |i: int|
                    if 0 <= i < members@.len() {
                        (members@[i].0@, json_view(members@[i].1))
                    } else {
                        (Seq::empty(), JsonView::Null)
                    },
            ),
        ),
    }
}

impl View for Json {
    type V = JsonView;

    open spec fn view(&self) -> JsonView {
        json_view(*self)
    }
}

/// The values of the items of an array.
pub open spec fn item_views(items: Seq<Json>) -> Seq<JsonView> {
    items.map_values(|j: Json| j@)
}

/// The keys and values of the members of an object.
pub open spec fn member_views(members: Seq<(String, Json)>) -> Seq<(Seq<char>, JsonView)> {
    members.map_values(|m: (String, Json)| (m.0@, m.1@))
}

/// The value of the first member with a key.
pub open spec fn lookup(members: Seq<(Seq<char>, JsonView)>, key: Seq<char>) -> Option<JsonView>
    decreases members.len(),
{
    if members.len() == 0 {
        None
    } else if members[0].0 == key {
        Some(members[0].1)
    } else {
        lookup(members.drop_first(), key)
    }
}

/// The member of an object with a key is the first that has it; where none has it there is none.
pub proof fn law_first_member_with_key(members: Seq<(Seq<char>, JsonView)>, key: Seq<char>) -> (i:
    int)
    ensures
        match JsonView::Object(members).get(key) {
            Some(value) => {
                &&& 0 <= i < members.len()
                &&& members[i] == (key, value)
                &&& forall|j: int| 0 <= j < i ==> (#[trigger] members[j]).0 != key
            },
            None => forall|j: int| 0 <= j < members.len() ==> (#[trigger] members[j]).0 != key,
        },
    decreases members.len(),
{
    if members.len() == 0 || members[0].0 == key {
        0
    } else {
        let rest = members.drop_first();
        let i = law_first_member_with_key(rest, key);
        assert(lookup(members, key) == lookup(rest, key));
        assert forall|j: int|
            0 < j < members.len() && (lookup(rest, key) is None || j <= i) implies (
        #[trigger] members[j]).0 != key by {
            assert(rest[j - 1] == members[j]);
        }
        i + 1
    }
}

/// What was put into a document is taken out of it: texts, lists and members as they are, and of an
/// unsigned integer the number, as an unsigned one and, where it fits, as a signed one. Nothing is
/// taken for another kind of value.
pub proof fn law_values_are_taken_out(
    n: u64,
    text: Seq<char>,
    items: Seq<JsonView>,
    members: Seq<(Seq<char>, JsonView)>,
    v: JsonView,
)
    ensures
        JsonView::unsigned(n).as_u64() == Some(n),
        JsonView::unsigned(n).as_i64() is Some <==> n <= 0x7fff_ffff_ffff_ffff,
        JsonView::unsigned(n).as_i64() matches Some(i) ==> i == n,
        JsonView::unsigned(n).as_decimal() == Some(decimal(n as nat)),
        JsonView::fraction(text).as_decimal() == Some(text),
        JsonView::Text(text).as_text() == Some(text),
        JsonView::Array(items).as_array() == Some(items),
        JsonView::Object(members).as_object() == Some(members),
        v.as_text() is Some ==> v is Text,
        v.as_u64() is Some || v.as_i64() is Some || v.as_decimal() is Some ==> v is Number,
        v.as_array() is Some ==> v is Array,
        v.as_object() is Some ==> v is Object,
        !(v is Object) ==> v.get(text) is None,
        v matches JsonView::Number { unsigned, signed, text } ==> v.as_u64() == unsigned
            && v.as_i64() == signed && v.as_decimal() == Some(text),
{
}

/// The value of an array holds the values of its items.
proof fn lemma_array_view(document: Json)
    requires
        document is Array,
    ensures
        document@ == JsonView::Array(item_views(document->Array_0@)),
{
    let items = document->Array_0@;
    let seen = document@->Array_0;
    assert forall|i: int| 0 <= i < items.len() implies #[trigger] seen[i] == item_views(items)[i] by {
        assert(seen[i] == json_view(items[i]));
    }
    assert(seen =~= item_views(items));
}

/// The value of an object holds the keys and values of its members.
proof fn lemma_object_view(document: Json)
    requires
        document is Object,
    ensures
        document@ == JsonView::Object(member_views(document->Object_0@)),
{
    let members = document->Object_0@;
    let seen = document@->Object_0;
    assert forall|i: int| 0 <= i < members.len() implies #[trigger] seen[i] == member_views(
        members,
    )[i] by {
        assert(seen[i] == (members[i].0@, json_view(members[i].1)));
    }
    assert(seen =~= member_views(members));
}

impl JsonView {
    /// The member of an object with a key; nothing else has members.
    pub open spec fn get(self, key: Seq<char>) -> Option<JsonView> {
        match self {
            JsonView::Object(members) => lookup(members, key),
            _ => None,
        }
    }

    pub open spec fn as_text(self) -> Option<Seq<char>> {
        match self {
            JsonView::Text(s) => Some(s),
            _ => None,
        }
    }

    pub open spec fn as_u64(self) -> Option<u64> {
        match self {
            JsonView::Number { unsigned, .. } => unsigned,
            _ => None,
        }
    }

    pub open spec fn as_i64(self) -> Option<i64> {
        match self {
            JsonView::Number { signed, .. } => signed,
            _ => None,
        }
    }

    /// The decimal text of a number.
    pub open spec fn as_decimal(self) -> Option<Seq<char>> {
        match self {
            JsonView::Number { text, .. } => Some(text),
            _ => None,
        }
    }

    pub open spec fn as_array(self) -> Option<Seq<JsonView>> {
        match self {
            JsonView::Array(items) => Some(items),
            _ => None,
        }
    }

    pub open spec fn as_object(self) -> Option<Seq<(Seq<char>, JsonView)>> {
        match self {
            JsonView::Object(members) => Some(members),
            _ => None,
        }
    }

    /// The decimal text of a number that is no unsigned integer.
    pub open spec fn fraction_text(self) -> Option<Seq<char>> {
        match self {
            JsonView::Number { unsigned: None, text, .. } => Some(text),
            _ => None,
        }
    }

    /// A document nested no deeper than `depth`.
    pub open spec fn is_shallow(self, depth: nat) -> bool
        decreases depth,
    {
        match self {
            JsonView::Array(items) => {
                &&& depth > 0
                &&& forall|i: int|
                    0 <= i < items.len() ==> (#[trigger] items[i]).is_shallow((depth - 1) as nat)
            },
            JsonView::Object(members) => {
                &&& depth > 0
                &&& forall|i: int|
                    0 <= i < members.len() ==> (#[trigger] members[i]).1.is_shallow(
                        (depth - 1) as nat,
                    )
            },
            _ => true,
        }
    }

    /// A document nested no deeper than `depth`, whose numbers are unsigned integers and whose
    /// objects list their members in the order of their keys.
    pub open spec fn is_plain(self, depth: nat) -> bool
        decreases depth,
    {
        match self {
            JsonView::Null | JsonView::Bool(_) | JsonView::Text(_) => true,
            JsonView::Number { unsigned, .. } => unsigned matches Some(n) && self
                == JsonView::unsigned(n),
            JsonView::Array(items) => {
                &&& depth > 0
                &&& forall|i: int|
                    0 <= i < items.len() ==> (#[trigger] items[i]).is_plain((depth - 1) as nat)
            },
            JsonView::Object(members) => {
                &&& depth > 0
                &&& forall|i: int|
                    0 <= i < members.len() ==> (#[trigger] members[i]).1.is_plain(
                        (depth - 1) as nat,
                    )
                &&& in_key_order(members)
            },
        }
    }
}

/// Whether members are listed in the order of their keys, each key once.
pub open spec fn in_key_order(members: Seq<(Seq<char>, JsonView)>) -> bool {
    forall|i: int, j: int|
        0 <= i < j < members.len() ==> text_less(
            (#[trigger] members[i]).0,
            (#[trigger] members[j]).0,
        )
}

/// Members in the order of their keys with one more: it takes the place of a member with its key.
pub open spec fn with_member(
    members: Seq<(Seq<char>, JsonView)>,
    key: Seq<char>,
    value: JsonView,
) -> Seq<(Seq<char>, JsonView)>
    decreases members.len(),
{
    if members.len() == 0 || text_less(key, members[0].0) {
        seq![(key, value)] + members
    } else if members[0].0 == key {
        seq![(key, value)] + members.drop_first()
    } else {
        seq![members[0]] + with_member(members.drop_first(), key, value)
    }
}

/// The deepest nesting that `serde_json` reads.
pub open spec fn max_depth() -> nat {
    127
}

/// The outside type `serde_json::Value`.
#[verifier::external_type_specification]
#[verifier::external_body]
pub struct ExValue(serde_json::Value);

/// The document that a `serde_json::Value` holds.
pub uninterp spec fn value_view(value: serde_json::Value) -> JsonView;

/// What `serde_json` reads in a text, or else what it says of the text that it refuses.
pub uninterp spec fn json_read(text: Seq<char>) -> Result<JsonView, Seq<char>>;

/// What `serde_json` writes for a document.
pub uninterp spec fn json_text(document: JsonView) -> Seq<char>;

/// The number that `serde_json` reads in a text: the integers it stands for, if it is one, and its
/// decimal text; `None` where it refuses the text.
pub uninterp spec fn json_number(text: Seq<char>) -> Option<(Option<u64>, Option<i64>, Seq<char>)>;

/// The document that a text holds; `None` where it is refused.
pub open spec fn json_parse(text: Seq<char>) -> Option<JsonView> {
    match json_read(text) {
        Ok(document) => Some(document),
        Err(_) => None,
    }
}

/// A number that was read, and null where there was none.
pub open spec fn number_view(read: Option<(Option<u64>, Option<i64>, Seq<char>)>) -> JsonView {
    match read {
        Some((unsigned, signed, text)) => JsonView::Number { unsigned, signed, text },
        None => JsonView::Null,
    }
}

/// The document that is sent for a document: an integer as it is, any other number as it is read in
/// its text, and the members of objects in the order of their keys.
pub open spec fn json_value(document: JsonView) -> JsonView
    decreases document,
{
    match document {
        JsonView::Number { unsigned, text, .. } => if unsigned matches Some(n) && document
            == JsonView::unsigned(n) {
            document
        } else {
            number_view(json_number(text))
        },
        JsonView::Array(items) => JsonView::Array(sent_items(items)),
        JsonView::Object(members) => JsonView::Object(sent_members(members)),
        _ => document,
    }
}

/// The items of an array, each as it is sent.
pub open spec fn sent_items(items: Seq<JsonView>) -> Seq<JsonView>
    decreases items,
{
    if items.len() == 0 {
        Seq::empty()
    } else {
        sent_items(items.drop_last()).push(json_value(items.last()))
    }
}

/// The members of an object, each as it is sent, in the order of their keys; of several with one key
/// the last.
pub open spec fn sent_members(members: Seq<(Seq<char>, JsonView)>) -> Seq<(Seq<char>, JsonView)>
    decreases members,
{
    if members.len() == 0 {
        Seq::empty()
    } else {
        with_member(
            sent_members(members.drop_last()),
            members.last().0,
            json_value(members.last().1),
        )
    }
}

/// Takes a `serde_json::Value` apart, variant by variant: the result is the document that it
/// holds. Of a number it keeps what `Number::as_u64` and `Number::as_i64` return, and its text.
#[verifier::external_body]
fn json_of_value(value: serde_json::Value) -> (r: Json)
    requires
        value_view(value).is_shallow(max_depth()),
    ensures
        r@ == value_view(value),
{
    match value {
        serde_json::Value::Null => Json::Null,
        serde_json::Value::Bool(b) => Json::Bool(b),
        serde_json::Value::Number(n) => Json::Number(
            JsonNumber { unsigned: n.as_u64(), signed: n.as_i64(), text: n.to_string() },
        ),
        serde_json::Value::String(s) => Json::Text(s),
        serde_json::Value::Array(a) => Json::Array(a.into_iter().map(json_of_value).collect()),
        serde_json::Value::Object(m) => Json::Object(
            m.into_iter().map(|(k, v)| (k, json_of_value(v))).collect(),
        ),
    }
}

/// Puts a `serde_json::Value` together, variant by variant; a number is read from its text by
/// `Number::from_str`, and is null where that refuses the text. Claimed: what is read in the text of
/// a number depends on the text alone, and in the digits of an unsigned integer it is that integer;
/// a `serde_json::Map` holds its members in the order of their keys, and of several with one key the
/// last.
#[verifier::external_body]
fn value_of_json(document: &Json) -> (r: serde_json::Value)
    requires
        document@.is_shallow(max_depth()),
    ensures
        value_view(r) == json_value(document@),
        document@.fraction_text() is Some ==> value_view(r) == number_view(
            json_number(document@.fraction_text()->0),
        ),
{
    match document {
        Json::Null => serde_json::Value::Null,
        Json::Bool(b) => serde_json::Value::Bool(*b),
        Json::Number(n) => n.text.parse().map_or(serde_json::Value::Null, serde_json::Value::Number),
        Json::Text(s) => serde_json::Value::String(s.clone()),
        Json::Array(a) => serde_json::Value::Array(a.iter().map(value_of_json).collect()),
        Json::Object(m) => serde_json::Value::Object(
            m.iter().map(|(k, v)| (k.clone(), value_of_json(v))).collect(),
        ),
    }
}

/// Calls `serde_json::from_str` for a `serde_json::Value`. Claimed: whether it accepts a text, the
/// document that it then returns, and the text of its error where it does not, depend on the text
/// alone; and a text that is nested deeper than its limit is refused.
#[verifier::external_body]
fn read_value(text: &str) -> (r: Result<serde_json::Value, String>)
    ensures
        match r {
            Ok(value) => json_read(text@) == Ok::<JsonView, Seq<char>>(value_view(value))
                && value_view(value).is_shallow(max_depth()),
            Err(said) => json_read(text@) == Err::<JsonView, Seq<char>>(said@),
        },
{
    serde_json::from_str(text).map_err(|e| e.to_string())
}

/// Calls `serde_json::to_string` on a `serde_json::Value`, which does not fail. Claimed: the text
/// depends on the document alone, has no line break, and is read back as the document. For numbers
/// that are no integers the crate promises that with its feature `float_roundtrip`, which is on.
#[verifier::external_body]
fn write_value(value: &serde_json::Value) -> (r: String)
    requires
        value_view(*value).is_shallow(max_depth()),
    ensures
        r@ == json_text(value_view(*value)),
        !r@.contains('\n'),
        json_parse(r@) == Some(value_view(*value)),
{
    serde_json::to_string(value).unwrap_or_default()
}

/// Reads a document; the error is what is said of a text that is refused.
pub fn parse_json(text: &str) -> (r: Result<Json, String>)
    ensures
        match r {
            Ok(document) => json_read(text@) == Ok::<JsonView, Seq<char>>(document@)
                && document@.is_shallow(max_depth()),
            Err(said) => json_read(text@) == Err::<JsonView, Seq<char>>(said@),
        },
{
    match read_value(text) {
        Ok(value) => Ok(json_of_value(value)),
        Err(said) => Err(said),
    }
}

/// Writes a document on one line. It is read back as it was sent.
pub fn encode_json(document: &Json) -> (r: String)
    requires
        document@.is_shallow(max_depth()),
    ensures
        r@ == json_text(json_value(document@)),
        !r@.contains('\n'),
        json_parse(r@) == Some(json_value(document@)),
{
    proof {
        lemma_value_is_shallow(document@, max_depth());
    }
    let value = value_of_json(document);
    write_value(&value)
}

/// A member that comes after all others is put at the end.
proof fn lemma_member_at_end(
    members: Seq<(Seq<char>, JsonView)>,
    key: Seq<char>,
    value: JsonView,
)
    requires
        forall|i: int| 0 <= i < members.len() ==> text_less((#[trigger] members[i]).0, key),
    ensures
        with_member(members, key, value) == members.push((key, value)),
    decreases members.len(),
{
    if members.len() > 0 {
        lemma_text_less_total(members[0].0, key);
        lemma_member_at_end(members.drop_first(), key, value);
        assert(seq![members[0]] + members.drop_first().push((key, value)) =~= members.push(
            (key, value),
        ));
    } else {
        assert(seq![(key, value)] + members =~= members.push((key, value)));
    }
}

/// The items of an array are sent one by one.
proof fn lemma_sent_items(items: Seq<JsonView>)
    ensures
        sent_items(items) == items.map_values(|v: JsonView| json_value(v)),
    decreases items.len(),
{
    let each = |v: JsonView| json_value(v);
    if items.len() > 0 {
        lemma_sent_items(items.drop_last());
        assert(items.map_values(each) =~= items.drop_last().map_values(each).push(
            each(items.last()),
        ));
    } else {
        assert(items.map_values(each) =~= Seq::empty());
    }
}

/// Members, each as it is sent, in their own order.
pub open spec fn each_sent(members: Seq<(Seq<char>, JsonView)>) -> Seq<(Seq<char>, JsonView)> {
    members.map_values(|m: (Seq<char>, JsonView)| (m.0, json_value(m.1)))
}

/// An object whose members are in the order of their keys is sent member by member.
pub proof fn law_members_are_sent(members: Seq<(Seq<char>, JsonView)>)
    requires
        in_key_order(members),
    ensures
        json_value(JsonView::Object(members)) == JsonView::Object(each_sent(members)),
    decreases members.len(),
{
    if members.len() > 0 {
        let front = members.drop_last();
        let last = members.last();
        law_members_are_sent(front);
        lemma_member_at_end(each_sent(front), last.0, json_value(last.1));
        assert(each_sent(front).push((last.0, json_value(last.1))) =~= each_sent(members));
    } else {
        assert(each_sent(members) =~= Seq::empty());
    }
}

/// Objects of a few members in the order of their keys are sent member by member.
pub proof fn lemma_objects_are_sent(
    k0: Seq<char>,
    v0: JsonView,
    k1: Seq<char>,
    v1: JsonView,
    k2: Seq<char>,
    v2: JsonView,
)
    ensures
        json_value(object1(k0, v0)) == object1(k0, json_value(v0)),
        text_less(k0, k1) ==> json_value(object2(k0, v0, k1, v1)) == object2(
            k0,
            json_value(v0),
            k1,
            json_value(v1),
        ),
        text_less(k0, k1) && text_less(k1, k2) && text_less(k0, k2) ==> json_value(
            object3(k0, v0, k1, v1, k2, v2),
        ) == object3(k0, json_value(v0), k1, json_value(v1), k2, json_value(v2)),
{
    let one = seq![(k0, v0)];
    law_members_are_sent(one);
    assert(each_sent(one) =~= seq![(k0, json_value(v0))]);
    if text_less(k0, k1) {
        let two = seq![(k0, v0), (k1, v1)];
        law_members_are_sent(two);
        assert(each_sent(two) =~= seq![(k0, json_value(v0)), (k1, json_value(v1))]);
        if text_less(k1, k2) && text_less(k0, k2) {
            let three = seq![(k0, v0), (k1, v1), (k2, v2)];
            law_members_are_sent(three);
            assert(each_sent(three) =~= seq![
                (k0, json_value(v0)),
                (k1, json_value(v1)),
                (k2, json_value(v2)),
            ]);
        }
    }
}

/// A document without fractions, whose members are in the order of their keys, is sent as it is.
pub proof fn law_plain_document_is_sent(document: JsonView, depth: nat)
    requires
        document.is_plain(depth),
    ensures
        json_value(document) == document,
        document.is_shallow(depth),
    decreases depth,
{
    match document {
        JsonView::Array(items) => {
            assert forall|i: int| 0 <= i < items.len() implies json_value(items[i]) == items[i] && (
            #[trigger] items[i]).is_shallow((depth - 1) as nat) by {
                law_plain_document_is_sent(items[i], (depth - 1) as nat);
            }
            lemma_sent_items(items);
            assert(sent_items(items) =~= items);
        },
        JsonView::Object(members) => {
            assert forall|i: int| 0 <= i < members.len() implies json_value(members[i].1)
                == members[i].1 && (#[trigger] members[i]).1.is_shallow((depth - 1) as nat) by {
                law_plain_document_is_sent(members[i].1, (depth - 1) as nat);
            }
            law_members_are_sent(members);
            assert(each_sent(members) =~= members);
        },
        _ => {},
    }
}

/// Whether all values of members are nested no deeper than `depth`.
spec fn all_shallow(members: Seq<(Seq<char>, JsonView)>, depth: nat) -> bool {
    forall|i: int| 0 <= i < members.len() ==> (#[trigger] members[i]).1.is_shallow(depth)
}

proof fn lemma_with_member_shallow(
    members: Seq<(Seq<char>, JsonView)>,
    key: Seq<char>,
    value: JsonView,
    depth: nat,
)
    requires
        all_shallow(members, depth),
        value.is_shallow(depth),
    ensures
        all_shallow(with_member(members, key, value), depth),
    decreases members.len(),
{
    if members.len() > 0 {
        lemma_with_member_shallow(members.drop_first(), key, value, depth);
    }
}

/// What is sent for the members of an object is nested no deeper than they are.
proof fn lemma_members_shallow(members: Seq<(Seq<char>, JsonView)>, depth: nat)
    requires
        all_shallow(members, depth),
    ensures
        all_shallow(sent_members(members), depth),
    decreases depth, members.len(),
{
    if members.len() > 0 {
        let last = members.last();
        lemma_members_shallow(members.drop_last(), depth);
        assert(members[members.len() - 1].1.is_shallow(depth));
        lemma_value_is_shallow(last.1, depth);
        lemma_with_member_shallow(
            sent_members(members.drop_last()),
            last.0,
            json_value(last.1),
            depth,
        );
    }
}

/// What is sent for a document is nested no deeper than it.
proof fn lemma_value_is_shallow(document: JsonView, depth: nat)
    requires
        document.is_shallow(depth),
    ensures
        json_value(document).is_shallow(depth),
    decreases depth, 0nat,
{
    match document {
        JsonView::Array(items) => {
            lemma_sent_items(items);
            let read = sent_items(items);
            assert forall|i: int| 0 <= i < read.len() implies (#[trigger] read[i]).is_shallow(
                (depth - 1) as nat,
            ) by {
                assert(items[i].is_shallow((depth - 1) as nat));
                lemma_value_is_shallow(items[i], (depth - 1) as nat);
            }
        },
        JsonView::Object(members) => {
            lemma_members_shallow(members, (depth - 1) as nat);
        },
        _ => {},
    }
}

impl Json {
    /// The member of an object with a key.
    pub fn get(&self, key: &str) -> (r: Option<&Json>)
        ensures
            match r {
                Some(j) => self@.get(key@) == Some(j@),
                None => self@.get(key@) is None,
            },
    {
        match self {
            Json::Object(members) => {
                let ghost all = member_views(members@);
                proof {
                    lemma_object_view(*self);
                }
                let mut i: usize = 0;
                assert(all.skip(0) =~= all);
                while i < members.len()
                    invariant
                        all == member_views(members@),
                        self@ == JsonView::Object(all),
                        i <= members@.len(),
                        lookup(all, key@) == lookup(all.skip(i as int), key@),
                    decreases members@.len() - i,
                {
                    assert(all.skip(i as int)[0] == (members@[i as int].0@, members@[i as int].1@));
                    if same_text(members[i].0.as_str(), key) {
                        return Some(&members[i].1);
                    }
                    assert(all.skip(i as int).drop_first() =~= all.skip(i + 1));
                    i = i + 1;
                }
                None
            },
            _ => None,
        }
    }

    /// The member of an object with a key, taken out of the object.
    pub fn into_member(self, key: &str) -> (r: Option<Json>)
        ensures
            match r {
                Some(j) => self@.get(key@) == Some(j@),
                None => self@.get(key@) is None,
            },
    {
        match self {
            Json::Object(members) => {
                let mut members = members;
                let ghost all = member_views(members@);
                proof {
                    lemma_object_view(self);
                }
                let mut i: usize = 0;
                assert(all.skip(0) =~= all);
                while i < members.len()
                    invariant
                        all == member_views(members@),
                        self@ == JsonView::Object(all),
                        i <= members@.len(),
                        lookup(all, key@) == lookup(all.skip(i as int), key@),
                    decreases members@.len() - i,
                {
                    assert(all.skip(i as int)[0] == (members@[i as int].0@, members@[i as int].1@));
                    if same_text(members[i].0.as_str(), key) {
                        let (_, value) = members.swap_remove(i);
                        return Some(value);
                    }
                    assert(all.skip(i as int).drop_first() =~= all.skip(i + 1));
                    i = i + 1;
                }
                None
            },
            _ => None,
        }
    }

    /// The text of a string.
    pub fn as_text(&self) -> (r: Option<&str>)
        ensures
            match r {
                Some(s) => self@.as_text() == Some(s@),
                None => self@.as_text() is None,
            },
    {
        match self {
            Json::Text(s) => Some(s.as_str()),
            _ => None,
        }
    }

    /// The value of a number that is a `u64`.
    pub fn as_u64(&self) -> (r: Option<u64>)
        ensures
            r == self@.as_u64(),
    {
        match self {
            Json::Number(n) => n.unsigned,
            _ => None,
        }
    }

    /// The value of a number that is an `i64`.
    pub fn as_i64(&self) -> (r: Option<i64>)
        ensures
            r == self@.as_i64(),
    {
        match self {
            Json::Number(n) => n.signed,
            _ => None,
        }
    }

    /// The decimal text of a number.
    pub fn as_decimal(&self) -> (r: Option<&str>)
        ensures
            match r {
                Some(s) => self@.as_decimal() == Some(s@),
                None => self@.as_decimal() is None,
            },
    {
        match self {
            Json::Number(n) => Some(n.text.as_str()),
            _ => None,
        }
    }

    /// The items of an array.
    pub fn as_array(&self) -> (r: Option<&Vec<Json>>)
        ensures
            match r {
                Some(items) => self@.as_array() == Some(item_views(items@)),
                None => self@.as_array() is None,
            },
    {
        match self {
            Json::Array(items) => {
                proof {
                    lemma_array_view(*self);
                }
                Some(items)
            },
            _ => None,
        }
    }

    /// The members of an object.
    pub fn as_object(&self) -> (r: Option<&Vec<(String, Json)>>)
        ensures
            match r {
                Some(members) => self@.as_object() == Some(member_views(members@)),
                None => self@.as_object() is None,
            },
    {
        match self {
            Json::Object(members) => {
                proof {
                    lemma_object_view(*self);
                }
                Some(members)
            },
            _ => None,
        }
    }

    pub fn is_null(&self) -> (r: bool)
        ensures
            r == (self@ is Null),
    {
        match self {
            Json::Null => true,
            _ => false,
        }
    }

    /// A string.
    pub fn text(s: &str) -> (r: Json)
        ensures
            r@ == JsonView::Text(s@),
    {
        Json::Text(s.to_owned())
    }

    /// An integer.
    pub fn unsigned(n: u64) -> (r: Json)
        ensures
            r@ == JsonView::unsigned(n),
    {
        let signed: Option<i64> = if n <= i64::MAX as u64 {
            Some(n as i64)
        } else {
            None
        };
        Json::Number(JsonNumber { unsigned: Some(n), signed, text: decimal_text(n) })
    }

    /// A number given by its decimal text, which is not an integer's.
    pub fn fraction(text: &str) -> (r: Json)
        ensures
            r@ == JsonView::fraction(text@),
    {
        Json::Number(JsonNumber { unsigned: None, signed: None, text: text.to_owned() })
    }

    /// An array.
    pub fn array(items: Vec<Json>) -> (r: Json)
        ensures
            r@ == JsonView::Array(item_views(items@)),
    {
        let r = Json::Array(items);
        proof {
            lemma_array_view(r);
        }
        r
    }

    /// An object, of members in the order of their keys.
    pub fn object(members: Vec<(String, Json)>) -> (r: Json)
        ensures
            r@ == JsonView::Object(member_views(members@)),
    {
        let r = Json::Object(members);
        proof {
            lemma_object_view(r);
        }
        r
    }
}

impl JsonView {
    /// An integer.
    pub open spec fn unsigned(n: u64) -> JsonView {
        JsonView::Number {
            unsigned: Some(n),
            signed: if n <= i64::MAX {
                Some(n as i64)
            } else {
                None
            },
            text: decimal(n as nat),
        }
    }

    /// A number given by its decimal text, which is not an integer's.
    pub open spec fn fraction(text: Seq<char>) -> JsonView {
        JsonView::Number { unsigned: None, signed: None, text }
    }
}

/// An object with one member.
pub open spec fn object1(k: Seq<char>, v: JsonView) -> JsonView {
    JsonView::Object(seq![(k, v)])
}

/// An object with two members.
pub open spec fn object2(k0: Seq<char>, v0: JsonView, k1: Seq<char>, v1: JsonView) -> JsonView {
    JsonView::Object(seq![(k0, v0), (k1, v1)])
}

/// An object with three members.
pub open spec fn object3(
    k0: Seq<char>,
    v0: JsonView,
    k1: Seq<char>,
    v1: JsonView,
    k2: Seq<char>,
    v2: JsonView,
) -> JsonView {
    JsonView::Object(seq![(k0, v0), (k1, v1), (k2, v2)])
}

impl Json {
    /// An object with one member.
    pub fn object_of_1(k: &str, v: Json) -> (r: Json)
        ensures
            r@ == object1(k@, v@),
    {
        let members = vec![(k.to_owned(), v)];
        assert(member_views(members@) =~= seq![(k@, v@)]);
        Json::object(members)
    }

    /// An object with two members, in the order of their keys.
    pub fn object_of_2(k0: &str, v0: Json, k1: &str, v1: Json) -> (r: Json)
        ensures
            r@ == object2(k0@, v0@, k1@, v1@),
    {
        let members = vec![(k0.to_owned(), v0), (k1.to_owned(), v1)];
        assert(member_views(members@) =~= seq![(k0@, v0@), (k1@, v1@)]);
        Json::object(members)
    }

    /// An object with three members, in the order of their keys.
    pub fn object_of_3(k0: &str, v0: Json, k1: &str, v1: Json, k2: &str, v2: Json) -> (r: Json)
        ensures
            r@ == object3(k0@, v0@, k1@, v1@, k2@, v2@),
    {
        let members = vec![(k0.to_owned(), v0), (k1.to_owned(), v1), (k2.to_owned(), v2)];
        assert(member_views(members@) =~= seq![(k0@, v0@), (k1@, v1@), (k2@, v2@)]);
        Json::object(members)
    }
}

/// A document is sent as its parts are: the items of a list each as it is sent, and integers and
/// texts as they are; any other number as the number that is read in its text.
pub proof fn law_parts_are_sent(items: Seq<JsonView>, n: u64, text: Seq<char>, b: bool)
    ensures
        json_value(JsonView::Array(items)) == JsonView::Array(
            items.map_values(|v: JsonView| json_value(v)),
        ),
        json_value(JsonView::unsigned(n)) == JsonView::unsigned(n),
        json_value(JsonView::fraction(text)) == number_view(json_number(text)),
        json_value(JsonView::Text(text)) == JsonView::Text(text),
        json_value(JsonView::Bool(b)) == JsonView::Bool(b),
        json_value(JsonView::Null) == JsonView::Null,
{
    lemma_sent_items(items);
}

/// What is put among members in the order of their keys keeps that order, is found under its key,
/// and leaves what is found under another as it is.
#[verifier::rlimit(40)]
#[verifier::spinoff_prover]
proof fn lemma_with_member(
    members: Seq<(Seq<char>, JsonView)>,
    key: Seq<char>,
    value: JsonView,
    other: Seq<char>,
)
    requires
        in_key_order(members),
    ensures
        in_key_order(with_member(members, key, value)),
        lookup(with_member(members, key, value), key) == Some(value),
        other != key ==> lookup(with_member(members, key, value), other) == lookup(members, other),
        forall|i: int|
            0 <= i < with_member(members, key, value).len() ==> (#[trigger] with_member(
                members,
                key,
                value,
            )[i]).0 == key || exists|j: int|
                0 <= j < members.len() && (#[trigger] members[j]).0 == with_member(
                    members,
                    key,
                    value,
                )[i].0,
    decreases members.len(),
{
    let r = with_member(members, key, value);
    if members.len() == 0 {
        assert(r =~= seq![(key, value)]);
        assert(r.drop_first() =~= members);
    } else {
        let rest = members.drop_first();
        let first = members[0];
        assert forall|i: int, j: int| 0 <= i < j < rest.len() implies text_less(
            (#[trigger] rest[i]).0,
            (#[trigger] rest[j]).0,
        ) by {
            assert(rest[i] == members[i + 1] && rest[j] == members[j + 1]);
        }
        lemma_text_less_total(key, first.0);
        if text_less(key, first.0) {
            assert(r =~= seq![(key, value)] + members);
            assert(r.drop_first() =~= members);
            assert forall|i: int, j: int| 0 <= i < j < r.len() implies text_less(
                (#[trigger] r[i]).0,
                (#[trigger] r[j]).0,
            ) by {
                assert(r[j] == members[j - 1]);
                if i == 0 {
                    if j > 1 {
                        assert(text_less(members[0].0, members[j - 1].0));
                        lemma_text_less_transitive(key, first.0, r[j].0);
                    }
                } else {
                    assert(r[i] == members[i - 1]);
                }
            }
            assert forall|i: int| 0 <= i < r.len() implies (#[trigger] r[i]).0 == key || exists|
                j: int,
            |
                0 <= j < members.len() && (#[trigger] members[j]).0 == r[i].0 by {
                if i > 0 {
                    assert(members[i - 1].0 == r[i].0);
                }
            }
        } else if first.0 == key {
            assert(r =~= seq![(key, value)] + rest);
            assert(r.drop_first() =~= rest);
            assert forall|i: int, j: int| 0 <= i < j < r.len() implies text_less(
                (#[trigger] r[i]).0,
                (#[trigger] r[j]).0,
            ) by {
                assert(r[j] == members[j]);
                assert(r[i].0 == members[i].0);
            }
            assert forall|i: int| 0 <= i < r.len() implies (#[trigger] r[i]).0 == key || exists|
                j: int,
            |
                0 <= j < members.len() && (#[trigger] members[j]).0 == r[i].0 by {
                if i > 0 {
                    assert(members[i].0 == r[i].0);
                }
            }
        } else {
            let tail = with_member(rest, key, value);
            lemma_with_member(rest, key, value, other);
            assert(r =~= seq![first] + tail);
            assert(r.drop_first() =~= tail);
            assert forall|i: int, j: int| 0 <= i < j < r.len() implies text_less(
                (#[trigger] r[i]).0,
                (#[trigger] r[j]).0,
            ) by {
                assert(r[j] == tail[j - 1]);
                if i == 0 {
                    if tail[j - 1].0 != key {
                        let m = choose|m: int|
                            0 <= m < rest.len() && (#[trigger] rest[m]).0 == tail[j - 1].0;
                        assert(rest[m] == members[m + 1]);
                        assert(text_less(members[0].0, members[m + 1].0));
                    }
                } else {
                    assert(r[i] == tail[i - 1]);
                }
            }
            assert forall|i: int| 0 <= i < r.len() implies (#[trigger] r[i]).0 == key || exists|
                j: int,
            |
                0 <= j < members.len() && (#[trigger] members[j]).0 == r[i].0 by {
                if i == 0 {
                    assert(members[0].0 == r[0].0);
                } else if tail[i - 1].0 != key {
                    let m = choose|m: int|
                        0 <= m < rest.len() && (#[trigger] rest[m]).0 == tail[i - 1].0;
                    assert(members[m + 1].0 == r[i].0);
                }
            }
        }
    }
}

/// The members of an object are sent in the order of their keys, whatever order they stand in, each
/// key once: under it, what is sent for the last member that has it.
#[verifier::rlimit(40)]
#[verifier::spinoff_prover]
pub proof fn law_last_member_of_a_key_is_sent(
    members: Seq<(Seq<char>, JsonView)>,
    i: int,
    key: Seq<char>,
)
    ensures
        in_key_order(sent_members(members)),
        json_value(JsonView::Object(members)) == JsonView::Object(sent_members(members)),
        0 <= i < members.len() && (forall|j: int|
            i < j < members.len() ==> (#[trigger] members[j]).0 != members[i].0) ==> lookup(
            sent_members(members),
            members[i].0,
        ) == Some(json_value(members[i].1)),
        (forall|j: int| 0 <= j < members.len() ==> (#[trigger] members[j]).0 != key) ==> lookup(
            sent_members(members),
            key,
        ) is None,
    decreases members.len(),
{
    if members.len() > 0 {
        let front = members.drop_last();
        let last = members.last();
        let n = members.len() - 1;
        assert(members[n] == last);
        law_last_member_of_a_key_is_sent(front, i, key);
        let before = sent_members(front);
        lemma_with_member(before, last.0, json_value(last.1), key);
        if 0 <= i < n {
            lemma_with_member(before, last.0, json_value(last.1), members[i].0);
            assert(front[i] == members[i]);
            if forall|j: int|
                i < j < members.len() ==> (#[trigger] members[j]).0 != members[i].0 {
                assert forall|j: int| i < j < front.len() implies (#[trigger] front[j]).0
                    != front[i].0 by {
                    assert(front[j] == members[j]);
                }
                assert(members[n].0 != members[i].0);
            }
        }
        if forall|j: int| 0 <= j < members.len() ==> (#[trigger] members[j]).0 != key {
            assert forall|j: int| 0 <= j < front.len() implies (#[trigger] front[j]).0 != key by {
                assert(front[j] == members[j]);
            }
            assert(members[n].0 != key);
        }
    }
}

} // verus!
