//! JSON values, by way of `serde_json`.
use vstd::prelude::*;
use crate::number::Real;
use crate::specimen::DomainError;
use crate::text::views;

verus! {

/// What a JSON value holds. A number stands for its binary64 value.
pub enum Json {
    Null,
    Flag(bool),
    Number(Real),
    Text(Seq<char>),
    List(Seq<Json>),
    Object(Map<Seq<char>, Json>),
}

/// A list of texts as JSON.
pub open spec fn texts_list(list: Seq<Seq<char>>) -> Json {
    Json::List(list.map_values(|s: Seq<char>| Json::Text(s)))
}

#[verifier::external_type_specification]
#[verifier::external_body]
pub struct ExValue(serde_json::Value);

#[verifier::external_type_specification]
#[verifier::external_body]
pub struct ExJsonError(serde_json::Error);

/// What a `serde_json::Value` holds.
pub uninterp spec fn held(v: serde_json::Value) -> Json;

/// What a text holds as JSON, or the words of the error where it is refused.
pub uninterp spec fn read_of(text: Seq<char>) -> Result<Json, Seq<char>>;

/// A list of strings written as JSON, or the words of the error where that fails.
pub uninterp spec fn written_of(list: Seq<Seq<char>>) -> Result<Seq<char>, Seq<char>>;

/// The words of an error.
pub uninterp spec fn words_of(e: serde_json::Error) -> Seq<char>;

/// `serde_json::Value::get` with a string: the member of that name of an object, and nothing
/// of any other value.
#[verifier::external_body]
pub(crate) fn member<'a>(v: &'a serde_json::Value, key: &str) -> (r: Option<&'a serde_json::Value>)
    ensures
        match (r, held(*v)) {
            (Some(m), Json::Object(o)) => o.dom().contains(key@) && held(*m) == o[key@],
            (Some(_), _) => false,
            (None, Json::Object(o)) => !o.dom().contains(key@),
            (None, _) => true,
        },
{
    v.get(key)
}

/// `serde_json::Value::as_str`: the text of a string, and nothing of any other value.
#[verifier::external_body]
pub(crate) fn as_text(v: &serde_json::Value) -> (r: Option<&str>)
    ensures
        match (r, held(*v)) {
            (Some(s), Json::Text(t)) => s@ == t,
            (Some(_), _) => false,
            (None, Json::Text(_)) => false,
            (None, _) => true,
        },
{
    v.as_str()
}

/// `serde_json::Value::as_array`: the items of a list in their order, and nothing of any
/// other value.
#[verifier::external_body]
pub(crate) fn as_items(v: &serde_json::Value) -> (r: Option<&Vec<serde_json::Value>>)
    ensures
        match (r, held(*v)) {
            (Some(items), Json::List(l)) => items@.map_values(|i: serde_json::Value| held(i)) == l,
            (Some(_), _) => false,
            (None, Json::List(_)) => false,
            (None, _) => true,
        },
{
    v.as_array()
}

/// `serde_json::Value::as_f64`: the binary64 value of a number, given by its bits, and
/// nothing of any other value.
#[verifier::external_body]
pub(crate) fn as_bits(v: &serde_json::Value) -> (r: Option<u64>)
    ensures
        match (r, held(*v)) {
            (Some(b), Json::Number(n)) => n.bits == b,
            (Some(_), _) => false,
            (None, Json::Number(_)) => false,
            (None, _) => true,
        },
{
    v.as_f64().map(|x| x.to_bits())
}

/// `serde_json::from_str` into a `Value`. What it reads, and the words of its error, are
/// named and not stated; they depend on the text alone.
#[verifier::external_body]
pub(crate) fn read(text: &str) -> (r: Result<serde_json::Value, serde_json::Error>)
    ensures
        match r {
            Ok(v) => read_of(text@) == Ok::<Json, Seq<char>>(held(v)),
            Err(e) => read_of(text@) == Err::<Json, Seq<char>>(words_of(e)),
        },
{
    serde_json::from_str(text)
}

/// `serde_json::to_string` of a list of strings. The text that it writes is named, and so are
/// the words of its error: both depend on the strings alone. The text reads back as that list.
#[verifier::external_body]
pub(crate) fn write_strings(list: &Vec<String>) -> (r: Result<String, serde_json::Error>)
    ensures
        match r {
            Ok(t) => written_of(views(list@)) == Ok::<Seq<char>, Seq<char>>(t@) && read_of(t@)
                == Ok::<Json, Seq<char>>(texts_list(views(list@))),
            Err(e) => written_of(views(list@)) == Err::<Seq<char>, Seq<char>>(words_of(e)),
        },
{
    serde_json::to_string(list)
}

/// The `Display` of a `serde_json::Error`, which is named and not stated.
#[verifier::external_body]
pub(crate) fn error_words(e: &serde_json::Error) -> (r: String)
    ensures
        r@ == words_of(*e),
{
    format!("{}", e)
}

/// The value of a text, or the error of the library.
pub fn parse(text: &str) -> (r: Result<serde_json::Value, DomainError>)
    ensures
        match r {
            Ok(v) => read_of(text@) == Ok::<Json, Seq<char>>(held(v)),
            Err(e) => read_of(text@) == Err::<Json, Seq<char>>(e.0@),
        },
{
    match read(text) {
        Ok(v) => Ok(v),
        Err(e) => Err(DomainError(error_words(&e))),
    }
}

/// A list of strings as JSON, which reads back as the list.
pub fn strings_text(list: &Vec<String>) -> (r: Result<String, DomainError>)
    ensures
        match r {
            Ok(t) => written_of(views(list@)) == Ok::<Seq<char>, Seq<char>>(t@) && read_of(t@)
                == Ok::<Json, Seq<char>>(texts_list(views(list@))),
            Err(e) => written_of(views(list@)) == Err::<Seq<char>, Seq<char>>(e.0@),
        },
{
    match write_strings(list) {
        Ok(t) => Ok(t),
        Err(e) => Err(DomainError(error_words(&e))),
    }
}

/// The text of a member, where the value has that member and it is a string.
pub open spec fn member_text(j: Json, key: Seq<char>) -> Option<Seq<char>> {
    match j {
        Json::Object(o) => if o.dom().contains(key) {
            match o[key] {
                Json::Text(t) => Some(t),
                _ => None,
            }
        } else {
            None
        },
        _ => None,
    }
}

pub fn text_member<'a>(v: &'a serde_json::Value, key: &str) -> (r: Option<&'a str>)
    ensures
        match r {
            Some(s) => member_text(held(*v), key@) == Some(s@),
            None => member_text(held(*v), key@) is None,
        },
{
    match member(v, key) {
        Some(m) => as_text(m),
        None => None,
    }
}

/// The number of a member, where the value has that member and it is a number.
pub open spec fn member_number(j: Json, key: Seq<char>) -> Option<Real> {
    match j {
        Json::Object(o) => if o.dom().contains(key) {
            match o[key] {
                Json::Number(n) => Some(n),
                _ => None,
            }
        } else {
            None
        },
        _ => None,
    }
}

pub fn number_member(v: &serde_json::Value, key: &str) -> (r: Option<Real>)
    ensures
        r == member_number(held(*v), key@),
{
    match member(v, key) {
        Some(m) => match as_bits(m) {
            Some(b) => Some(Real::from_bits(b)),
            None => None,
        },
        None => None,
    }
}

/// The items of a member, none where it is not a list.
pub open spec fn member_items(j: Json, key: Seq<char>) -> Seq<Json> {
    match j {
        Json::Object(o) => if o.dom().contains(key) {
            match o[key] {
                Json::List(l) => l,
                _ => Seq::empty(),
            }
        } else {
            Seq::empty()
        },
        _ => Seq::empty(),
    }
}

/// The texts of a member of each of the first `k` items, without the items that have none.
pub open spec fn texts_of(items: Seq<Json>, key: Seq<char>, k: nat) -> Seq<Seq<char>>
    decreases k,
{
    if k == 0 {
        Seq::empty()
    } else {
        let before = texts_of(items, key, (k - 1) as nat);
        match member_text(items[k - 1], key) {
            Some(t) => before.push(t),
            None => before,
        }
    }
}

/// The texts of a member of each item of a list.
pub fn item_texts(v: &serde_json::Value, list: &str, key: &str) -> (r: Vec<String>)
    ensures
        ({
            let items = member_items(held(*v), list@);
            views(r@) == texts_of(items, key@, items.len())
        }),
{
    let mut out: Vec<String> = Vec::new();
    proof {
        assert(views(out@) =~= Seq::empty());
    }
    let m: &serde_json::Value = match member(v, list) {
        Some(m) => m,
        None => {
            return out;
        },
    };
    let items: &Vec<serde_json::Value> = match as_items(m) {
        Some(i) => i,
        None => {
            return out;
        },
    };
    let ghost all = member_items(held(*v), list@);
    proof {
        assert(all == items@.map_values(|i: serde_json::Value| held(i)));
    }
    let mut i: usize = 0;
    while i < items.len()
        invariant
            i <= items@.len(),
            all == items@.map_values(|i: serde_json::Value| held(i)),
            views(out@) == texts_of(all, key@, i as nat),
        decreases items@.len() - i,
    {
        proof {
            assert(all[i as int] == held(items@[i as int]));
        }
        match text_member(&items[i], key) {
            Some(t) => {
                let ghost before = views(out@);
                out.push(t.to_owned());
                proof {
                    assert(views(out@) =~= before.push(t@));
                }
            },
            None => {},
        }
        i = i + 1;
    }
    out
}

} // verus!
