//! JSON documents as plain values.
//!
//! The wire carries JSON text. `serde_json` turns the text into its own
//! value tree; this module copies that tree into [`Json`], on which the rest
//! of the crate works and reasons.

use vstd::prelude::*;
use vstd::string::*;
use crate::text::same_text;

verus! {

/// A JSON document.
///
/// A number keeps what the parser reports of it under each of two readings:
/// as a 64-bit integer, and as the bits of a double. A number made here for
/// sending fills in the one reading that the receiver will ask for.
/// An object keeps its members in the order in which they were handed over.
#[derive(Debug, PartialEq)]
pub enum Json {
    Null,
    Bool(bool),
    Number(Option<i64>, Option<u64>),
    Text(String),
    Array(Vec<Json>),
    Object(Vec<(String, Json)>),
}

/// The mathematical value of a [`Json`] document.
pub enum JsonView {
    Null,
    Bool(bool),
    Number(Option<i64>, Option<u64>),
    Text(Seq<char>),
    Array(Seq<JsonView>),
    Object(Seq<(Seq<char>, JsonView)>),
}

impl View for Json {
    type V = JsonView;

    open spec fn view(&self) -> JsonView
        decreases self,
    {
        match self {
            Json::Null => JsonView::Null,
            Json::Bool(b) => JsonView::Bool(*b),
            Json::Number(i, f) => JsonView::Number(*i, *f),
            Json::Text(s) => JsonView::Text(s@),
            Json::Array(items) => JsonView::Array(
                Seq::new(
                    items@.len(),
                    |k: int|
                        if 0 <= k < items@.len() {
                            items@[k].view()
                        } else {
                            JsonView::Null
                        },
                ),
            ),
            Json::Object(members) => JsonView::Object(
                Seq::new(
                    members@.len(),
                    |k: int|
                        if 0 <= k < members@.len() {
                            (members@[k].0@, members@[k].1.view())
                        } else {
                            (Seq::empty(), JsonView::Null)
                        },
                ),
            ),
        }
    }
}

/// The members of an object, each by its name and its value.
pub open spec fn members_view(members: Seq<(String, Json)>) -> Seq<(Seq<char>, JsonView)> {
    Seq::new(members.len(), |k: int| (members[k].0@, members[k].1@))
}

/// The value of the first member called `name`.
pub open spec fn find_member(members: Seq<(Seq<char>, JsonView)>, name: Seq<char>) -> Option<
    JsonView,
>
    decreases members.len(),
{
    if members.len() == 0 {
        None
    } else if members[0].0 == name {
        Some(members[0].1)
    } else {
        find_member(members.drop_first(), name)
    }
}

impl JsonView {
    /// A number to be read as an integer.
    pub open spec fn integer(i: i64) -> JsonView {
        JsonView::Number(Some(i), None)
    }

    /// A number to be read as the bits of a double.
    pub open spec fn bits(b: u64) -> JsonView {
        JsonView::Number(None, Some(b))
    }

    /// The member `name` of an object.
    pub open spec fn member(self, name: Seq<char>) -> Option<JsonView> {
        match self {
            JsonView::Object(members) => find_member(members, name),
            _ => None,
        }
    }

    /// The integer reading of a number.
    pub open spec fn as_int(self) -> Option<i64> {
        match self {
            JsonView::Number(i, _) => i,
            _ => None,
        }
    }

    /// The double reading of a number, as bits.
    pub open spec fn as_bits(self) -> Option<u64> {
        match self {
            JsonView::Number(_, f) => f,
            _ => None,
        }
    }

    /// The characters of a text.
    pub open spec fn as_text(self) -> Option<Seq<char>> {
        match self {
            JsonView::Text(s) => Some(s),
            _ => None,
        }
    }

    /// The truth value of a boolean.
    pub open spec fn as_flag(self) -> Option<bool> {
        match self {
            JsonView::Bool(b) => Some(b),
            _ => None,
        }
    }

    /// The members of an object, in order.
    pub open spec fn as_members(self) -> Option<Seq<(Seq<char>, JsonView)>> {
        match self {
            JsonView::Object(members) => Some(members),
            _ => None,
        }
    }
}

/// An object's value lists its members' values.
pub proof fn lemma_object_view(members: Vec<(String, Json)>)
    ensures
        Json::Object(members)@ == JsonView::Object(members_view(members@)),
{
    reveal_with_fuel(<Json as View>::view, 2);
    assert(Json::Object(members)@->Object_0 =~= members_view(members@));
}

/// A member that stands first is found first.
pub proof fn lemma_find_first(members: Seq<(Seq<char>, JsonView)>, name: Seq<char>)
    requires
        members.len() > 0,
        members[0].0 == name,
    ensures
        find_member(members, name) == Some(members[0].1),
{
}

/// A member behind others with other names is found behind them.
pub proof fn lemma_find_skips(members: Seq<(Seq<char>, JsonView)>, name: Seq<char>, at: int)
    requires
        0 <= at <= members.len(),
        forall|k: int| 0 <= k < at ==> members[k].0 != name,
    ensures
        find_member(members, name) == find_member(members.skip(at), name),
    decreases at,
{
    if at == 0 {
        assert(members.skip(0) =~= members);
    } else {
        lemma_find_skips(members.drop_first(), name, at - 1);
        assert(members.drop_first().skip(at - 1) =~= members.skip(at));
    }
}

/// An object's members, none yet.
pub fn no_members() -> (members: Vec<(String, Json)>)
    ensures
        members_view(members@) == Seq::<(Seq<char>, JsonView)>::empty(),
{
    let members: Vec<(String, Json)> = Vec::new();
    assert(members_view(members@) =~= Seq::<(Seq<char>, JsonView)>::empty());
    members
}

/// The members with one more behind them.
pub fn with_member(members: Vec<(String, Json)>, name: &str, value: Json) -> (more: Vec<
    (String, Json),
>)
    ensures
        members_view(more@) == members_view(members@).push((name@, value@)),
{
    let mut more = members;
    let ghost before = members_view(more@);
    more.push((String::from_str(name), value));
    assert(members_view(more@) =~= before.push((name@, value@)));
    more
}

impl Json {
    /// A number to be read as an integer.
    pub fn integer(i: i64) -> (j: Json)
        ensures
            j@ == JsonView::integer(i),
    {
        Json::Number(Some(i), None)
    }

    /// A number to be read as the bits of a double.
    pub fn bits(b: u64) -> (j: Json)
        ensures
            j@ == JsonView::bits(b),
    {
        Json::Number(None, Some(b))
    }

    /// A text.
    pub fn text(s: String) -> (j: Json)
        ensures
            j@ == JsonView::Text(s@),
    {
        Json::Text(s)
    }

    /// A boolean.
    pub fn flag(b: bool) -> (j: Json)
        ensures
            j@ == JsonView::Bool(b),
    {
        Json::Bool(b)
    }

    /// An object with these members, in this order.
    pub fn object(members: Vec<(String, Json)>) -> (j: Json)
        ensures
            j@ == JsonView::Object(members_view(members@)),
    {
        proof {
            lemma_object_view(members);
        }
        Json::Object(members)
    }

    /// The member `name` of an object; `None` for anything but an object
    /// that has one.
    pub fn get(&self, name: &str) -> (r: Option<&Json>)
        ensures
            match r {
                Some(j) => self@.member(name@) == Some(j@),
                None => self@.member(name@) is None,
            },
    {
        match self {
            Json::Object(members) => {
                proof {
                    lemma_object_view(*members);
                }
                let ghost all = members_view(members@);
                let mut k: usize = 0;
                while k < members.len()
                    invariant
                        k <= members@.len(),
                        all == members_view(members@),
                        self@ == JsonView::Object(all),
                        forall|i: int| 0 <= i < k ==> all[i].0 != name@,
                    decreases members@.len() - k,
                {
                    if same_text(members[k].0.as_str(), name) {
                        proof {
                            lemma_find_skips(all, name@, k as int);
                            assert(all.skip(k as int)[0] == all[k as int]);
                            assert(all[k as int] == (members@[k as int].0@, members@[k as int].1@));
                            lemma_find_first(all.skip(k as int), name@);
                        }
                        return Some(&members[k].1);
                    }
                    k = k + 1;
                }
                proof {
                    lemma_find_skips(all, name@, k as int);
                    assert(all.skip(k as int) =~= Seq::empty());
                }
                None
            },
            _ => None,
        }
    }

    /// The integer reading of a number.
    pub fn as_int(&self) -> (r: Option<i64>)
        ensures
            r == self@.as_int(),
    {
        match self {
            Json::Number(i, _) => *i,
            _ => None,
        }
    }

    /// The double reading of a number, as bits.
    pub fn as_bits(&self) -> (r: Option<u64>)
        ensures
            r == self@.as_bits(),
    {
        match self {
            Json::Number(_, f) => *f,
            _ => None,
        }
    }

    /// The text, if the document is one.
    pub fn as_text(&self) -> (r: Option<&String>)
        ensures
            match r {
                Some(s) => self@.as_text() == Some(s@),
                None => self@.as_text() is None,
            },
    {
        match self {
            Json::Text(s) => Some(s),
            _ => None,
        }
    }

    /// The truth value, if the document is a boolean.
    pub fn as_flag(&self) -> (r: Option<bool>)
        ensures
            r == self@.as_flag(),
    {
        match self {
            Json::Bool(b) => Some(*b),
            _ => None,
        }
    }

    /// The members of an object, in order.
    pub fn as_members(&self) -> (r: Option<&Vec<(String, Json)>>)
        ensures
            match r {
                Some(members) => self@.as_members() == Some(members_view(members@)),
                None => self@.as_members() is None,
            },
    {
        match self {
            Json::Object(members) => {
                proof {
                    lemma_object_view(*members);
                }
                Some(members)
            },
            _ => None,
        }
    }

    /// Reads a document from JSON text.
    pub fn parse(bytes: &[u8]) -> (r: Option<Json>)
        ensures
            match r {
                Some(j) => parsed_document(bytes@) == Some(j@),
                None => parsed_document(bytes@) is None,
            },
    {
        match parse_value(bytes) {
            Some(v) => Some(document_of(&v)),
            None => None,
        }
    }
}

/// `serde_json::Value`, the parser's own value tree. It is carried from
/// the parser to the copy below, and nothing of its inside is known here.
#[verifier::external_type_specification]
#[verifier::external_body]
pub struct ExValue(serde_json::Value);

/// What `serde_json` makes of a text: its value tree, or nothing where the
/// text is not one JSON document.
pub uninterp spec fn parsed_value(bytes: Seq<u8>) -> Option<serde_json::Value>;

/// The document that a `serde_json` value tree holds.
pub uninterp spec fn value_document(v: serde_json::Value) -> JsonView;

/// The document that a text holds, if it is one JSON document.
pub open spec fn parsed_document(bytes: Seq<u8>) -> Option<JsonView> {
    match parsed_value(bytes) {
        Some(v) => Some(value_document(v)),
        None => None,
    }
}

/// Calls `serde_json::from_slice` for a `serde_json::Value`. Nothing is
/// claimed of the outcome but that it depends on the text alone.
#[verifier::external_body]
fn parse_value(bytes: &[u8]) -> (r: Option<serde_json::Value>)
    ensures
        r == parsed_value(bytes@),
{
    serde_json::from_slice(bytes).ok()
}

/// Copies a `serde_json::Value` into a [`Json`], variant by variant. A number
/// is copied as what `Number::as_i64` and `Number::as_f64` return for it,
/// the double as its bits; an object's members come in the order in which
/// `Map::iter` yields them. Nothing is claimed of the outcome but that it
/// depends on the value alone.
#[verifier::external_body]
fn document_of(v: &serde_json::Value) -> (j: Json)
    ensures
        j@ == value_document(*v),
{
    match v {
        serde_json::Value::Null => Json::Null,
        serde_json::Value::Bool(b) => Json::Bool(*b),
        serde_json::Value::Number(n) => Json::Number(n.as_i64(), n.as_f64().map(|x| x.to_bits())),
        serde_json::Value::String(s) => Json::Text(s.clone()),
        serde_json::Value::Array(a) => Json::Array(a.iter().map(document_of).collect()),
        serde_json::Value::Object(m) => Json::Object(
            m.iter().map(|(k, x)| (k.clone(), document_of(x))).collect(),
        ),
    }
}

} // verus!
