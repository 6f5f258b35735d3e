//! JSON values as far as replies of the collected services are read: a value can
//! be asked for a member, an item, its text or its number, and answers `Null`
//! where it has none.

use crate::text;
use vstd::prelude::*;

verus! {

broadcast use vstd::string::group_string_axioms;

/// A JSON value. A number keeps its value where that is a 64-bit signed integer.
pub enum Json {
    Null,
    Bool(bool),
    Number(Option<i64>),
    Text(String),
    Array(Vec<Json>),
    Object(Vec<(String, Json)>),
}

/// The contents of a JSON value.
pub enum JsonView {
    Null,
    Bool(bool),
    Number(Option<i64>),
    Text(Seq<char>),
    Array(Seq<JsonView>),
    Object(Seq<(Seq<char>, JsonView)>),
}

impl View for Json {
    type V = JsonView;

    open spec fn view(&self) -> JsonView {
        contents(*self)
    }
}

/// The contents of a JSON value.
pub open spec fn contents(v: Json) -> JsonView
    decreases v,
{
    match v {
        Json::Null => JsonView::Null,
        Json::Bool(b) => JsonView::Bool(b),
        Json::Number(n) => JsonView::Number(n),
        Json::Text(s) => JsonView::Text(s@),
        Json::Array(items) => JsonView::Array(
            Seq::new(
                items@.len(),
                |i: int|
                    if 0 <= i < items@.len() {
                        contents(items@[i])
                    } else {
                        JsonView::Null
                    },
            ),
        ),
        Json::Object(members) => JsonView::Object(
            Seq::new(
                members@.len(),
                |i: int|
                    if 0 <= i < members@.len() {
                        (members@[i].0@, contents(members@[i].1))
                    } else {
                        (Seq::empty(), JsonView::Null)
                    },
            ),
        ),
    }
}

/// The contents of a value that may be missing: a missing value reads as `Null`.
pub open spec fn opt_contents(v: Option<&Json>) -> JsonView {
    match v {
        Some(x) => contents(*x),
        None => JsonView::Null,
    }
}

/// The value of the first member from position `i` with a name.
pub open spec fn member_from(m: Seq<(Seq<char>, JsonView)>, key: Seq<char>, i: int) -> JsonView
    decreases m.len() - i,
{
    if i < 0 || i >= m.len() {
        JsonView::Null
    } else if m[i].0 == key {
        m[i].1
    } else {
        member_from(m, key, i + 1)
    }
}

impl JsonView {
    /// The member of an object with a name.
    pub open spec fn get(self, key: Seq<char>) -> JsonView {
        match self {
            JsonView::Object(m) => member_from(m, key, 0),
            _ => JsonView::Null,
        }
    }

    /// The items of an array; none for another value.
    pub open spec fn items(self) -> Seq<JsonView> {
        match self {
            JsonView::Array(v) => v,
            _ => Seq::empty(),
        }
    }

    /// An item of an array.
    pub open spec fn at(self, i: int) -> JsonView {
        if 0 <= i < self.items().len() {
            self.items()[i]
        } else {
            JsonView::Null
        }
    }

    /// The text of a value.
    pub open spec fn text(self) -> Option<Seq<char>> {
        match self {
            JsonView::Text(s) => Some(s),
            _ => None,
        }
    }

    /// The text of a value, empty where it has none.
    pub open spec fn text_or_empty(self) -> Seq<char> {
        match self {
            JsonView::Text(s) => s,
            _ => Seq::empty(),
        }
    }

    /// The number of a value, 0 where it has none.
    pub open spec fn int_or_zero(self) -> i64 {
        match self {
            JsonView::Number(Some(n)) => n,
            _ => 0,
        }
    }
}

/// The member of an object with a name.
pub fn get<'a>(v: Option<&'a Json>, key: &str) -> (r: Option<&'a Json>)
    ensures
        opt_contents(r) == opt_contents(v).get(key@),
{
    match v {
        Some(Json::Object(members)) => {
            let ghost m = opt_contents(v)->Object_0;
            let mut i: usize = 0;
            while i < members.len()
                invariant
                    i <= members@.len(),
                    m == contents(Json::Object(*members))->Object_0,
                    opt_contents(v) == JsonView::Object(m),
                    member_from(m, key@, 0) == member_from(m, key@, i as int),
                decreases members.len() - i,
            {
                assert(m[i as int] == (members@[i as int].0@, contents(members@[i as int].1)));
                if text::same_str(members[i].0.as_str(), key) {
                    return Some(&members[i].1);
                }
                i = i + 1;
            }
            None
        },
        _ => None,
    }
}

/// The items of an array; none for another value.
pub fn items<'a>(v: Option<&'a Json>) -> (r: Vec<&'a Json>)
    ensures
        r@.len() == opt_contents(v).items().len(),
        forall|i: int| 0 <= i < r@.len() ==> contents(*#[trigger] r@[i]) == opt_contents(v).items()[i],
{
    let mut out: Vec<&'a Json> = Vec::new();
    if let Some(Json::Array(list)) = v {
        for i in 0..list.len()
            invariant
                out@.len() == i,
                forall|k: int| 0 <= k < i ==> *#[trigger] out@[k] == list@[k],
        {
            out.push(&list[i]);
        }
    }
    out
}

/// An item of an array.
pub fn at<'a>(v: Option<&'a Json>, i: usize) -> (r: Option<&'a Json>)
    ensures
        opt_contents(r) == opt_contents(v).at(i as int),
{
    match v {
        Some(Json::Array(list)) => if i < list.len() {
            Some(&list[i])
        } else {
            None
        },
        _ => None,
    }
}

/// The text of a value.
pub fn text<'a>(v: Option<&'a Json>) -> (r: Option<&'a str>)
    ensures
        match r {
            Some(s) => opt_contents(v).text() == Some(s@),
            None => opt_contents(v).text() is None,
        },
{
    match v {
        Some(Json::Text(s)) => Some(s.as_str()),
        _ => None,
    }
}

/// The text of a value, empty where it has none.
pub fn text_or_empty(v: Option<&Json>) -> (r: String)
    ensures
        r@ == opt_contents(v).text_or_empty(),
{
    match v {
        Some(Json::Text(s)) => s.clone(),
        _ => String::new(),
    }
}

/// The number of a value, 0 where it has none.
pub fn int_or_zero(v: Option<&Json>) -> (r: i64)
    ensures
        r == opt_contents(v).int_or_zero(),
{
    match v {
        Some(Json::Number(Some(n))) => *n,
        _ => 0,
    }
}

/// The value is missing or `Null`.
pub fn is_null(v: Option<&Json>) -> (r: bool)
    ensures
        r == (opt_contents(v) is Null),
{
    match v {
        None => true,
        Some(Json::Null) => true,
        _ => false,
    }
}

/// What is wrong with a malformed JSON text.
#[verifier::external_type_specification]
#[verifier::external_body]
pub struct ExError(serde_json::Error);

/// A JSON value as the reader of texts holds it.
#[verifier::external_type_specification]
#[verifier::external_body]
pub struct ExValue(serde_json::Value);

/// The value that `serde_json::from_str` reads from a text; None where it finds
/// the text malformed.
pub uninterp spec fn parsed(text: Seq<char>) -> Option<JsonView>;

/// Takes a `serde_json::Value` over, variant for variant. A number is asked for
/// its value with `serde_json::Number::as_i64`. Nothing is claimed here: what a
/// text holds is named where the text is read.
#[verifier::external_body]
fn taken_over(v: serde_json::Value) -> (r: Json) {
    match v {
        serde_json::Value::Null => Json::Null,
        serde_json::Value::Bool(b) => Json::Bool(b),
        serde_json::Value::Number(n) => Json::Number(n.as_i64()),
        serde_json::Value::String(s) => Json::Text(s),
        serde_json::Value::Array(a) => Json::Array(a.into_iter().map(taken_over).collect()),
        serde_json::Value::Object(m) => Json::Object(
            m.into_iter().map(|(k, x)| (k, taken_over(x))).collect(),
        ),
    }
}

/// Reads a text with `serde_json::from_str`. Its result depends on the text
/// alone: the value that the text holds, or an error where it is malformed.
#[verifier::external_body]
fn read(text: &str) -> (r: Result<Json, serde_json::Error>)
    ensures
        match r {
            Ok(v) => parsed(text@) == Some(v@),
            Err(_) => parsed(text@) is None,
        },
{
    match serde_json::from_str::<serde_json::Value>(text) {
        Ok(v) => Ok(taken_over(v)),
        Err(e) => Err(e),
    }
}

/// A text that is no JSON, with the reader's reason.
pub struct Malformed {
    pub cause: serde_json::Error,
}

/// Reads a JSON text.
pub fn parse(text: &str) -> (r: Result<Json, Malformed>)
    ensures
        match r {
            Ok(v) => parsed(text@) == Some(v@),
            Err(_) => parsed(text@) is None,
        },
{
    match read(text) {
        Ok(v) => Ok(v),
        Err(cause) => Err(Malformed { cause }),
    }
}

/// A member is the value of the first of the pairs with its name, `Null` where no
/// pair has it or the value is no object.
pub proof fn lemma_member(before: Seq<(Seq<char>, JsonView)>, key: Seq<char>, v: JsonView, after: Seq<
    (Seq<char>, JsonView),
>)
    requires
        forall|i: int| 0 <= i < before.len() ==> (#[trigger] before[i]).0 != key,
    ensures
        JsonView::Object(before + seq![(key, v)] + after).get(key) == v,
        JsonView::Object(before).get(key) == JsonView::Null,
{
    lemma_member_from(before + seq![(key, v)] + after, before.len() as int, key, 0);
    lemma_member_from(before, before.len() as int, key, 0);
}

proof fn lemma_member_from(m: Seq<(Seq<char>, JsonView)>, n: int, key: Seq<char>, i: int)
    requires
        0 <= i <= n <= m.len(),
        forall|j: int| i <= j < n ==> (#[trigger] m[j]).0 != key,
    ensures
        member_from(m, key, i) == member_from(m, key, n),
    decreases n - i,
{
    if i < n {
        lemma_member_from(m, n, key, i + 1);
    }
}

/// A value answers what it is asked for only where it is of that sort.
pub proof fn lemma_answers(v: JsonView, i: int)
    ensures
        v is Text ==> v.text() == Some(v->Text_0) && v.text_or_empty() == v->Text_0,
        v !is Text ==> v.text() is None && v.text_or_empty().len() == 0,
        v is Array ==> v.items() == v->Array_0 && (0 <= i < v->Array_0.len() ==> v.at(i)
            == v->Array_0[i]),
        v !is Array ==> v.items().len() == 0 && v.at(i) is Null,
        v is Number && v->Number_0 is Some ==> v.int_or_zero() == v->Number_0->0,
        !(v is Number && v->Number_0 is Some) ==> v.int_or_zero() == 0,
{
}

} // verus!
