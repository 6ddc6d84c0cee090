//! JSON, one level at a time.
//!
//! A parsed value holds its own level; the values inside it stay texts until they are asked for.

use crate::text::same_text;
use serde_json::Value;
use vstd::prelude::*;
use vstd::utf8::encode_utf8;

verus! {

/// One level of a JSON value. The elements of a list and the members of an object are JSON texts
/// themselves.
#[derive(Debug)]
pub enum Json {
    Null,
    Bool(bool),
    /// A number: its value where it is a whole one of 64 bits, and the text the parser gives it.
    Number(Option<u64>, String),
    Text(String),
    List(Vec<String>),
    Object(Vec<(String, String)>),
}

/// One level of a JSON value.
#[verifier::ext_equal]
pub enum JsonView {
    Null,
    Bool(bool),
    Number(Option<u64>, Seq<char>),
    Text(Seq<char>),
    List(Seq<Seq<char>>),
    Object(Seq<(Seq<char>, Seq<char>)>),
}

impl View for Json {
    type V = JsonView;

    open spec fn view(&self) -> JsonView {
        match self {
            Json::Null => JsonView::Null,
            Json::Bool(b) => JsonView::Bool(*b),
            Json::Number(n, s) => JsonView::Number(*n, s@),
            Json::Text(s) => JsonView::Text(s@),
            Json::List(v) => JsonView::List(Seq::new(v@.len(), |i: int| v@[i]@)),
            Json::Object(v) => JsonView::Object(
                Seq::new(v@.len(), |i: int| (v@[i].0@, v@[i].1@)),
            ),
        }
    }
}

/// What JSON bytes parse to: the value's first level, or what the parser says is wrong.
pub uninterp spec fn parsed_json(bytes: Seq<u8>) -> Result<JsonView, Seq<char>>;

/// `serde_json::from_slice` into a `Value`, with each element and member written out again. Claims
/// that the outcome, value or error message, depends on the bytes alone.
#[verifier::external_body]
pub(crate) fn parse_json(bytes: &[u8]) -> (r: Result<Json, String>)
    ensures
        match r {
            Ok(v) => parsed_json(bytes@) == Ok::<_, Seq<char>>(v@),
            Err(e) => parsed_json(bytes@) == Err::<JsonView, _>(e@),
        },
{
    Ok(match serde_json::from_slice::<Value>(bytes).map_err(|e| e.to_string())? {
        Value::Null => Json::Null,
        Value::Bool(b) => Json::Bool(b),
        Value::Number(n) => Json::Number(n.as_u64(), n.to_string()),
        Value::String(s) => Json::Text(s),
        Value::Array(a) => Json::List(a.iter().map(Value::to_string).collect()),
        Value::Object(o) => Json::Object(o.into_iter().map(|(k, v)| (k, v.to_string())).collect()),
    })
}

/// The text of an object's member, if there is one of that name.
pub open spec fn member_text(v: JsonView, key: Seq<char>) -> Option<Seq<char>> {
    match v {
        JsonView::Object(members) => first_member(members, key),
        _ => None,
    }
}

/// The first member of a name.
pub open spec fn first_member(members: Seq<(Seq<char>, Seq<char>)>, key: Seq<char>) -> Option<
    Seq<char>,
>
    decreases members.len(),
{
    if members.len() == 0 {
        None
    } else if members[0].0 == key {
        Some(members[0].1)
    } else {
        first_member(members.drop_first(), key)
    }
}

/// The value that a JSON text spells, null where it spells none.
pub open spec fn value_of(text: Seq<char>) -> JsonView {
    match parsed_json(encode_utf8(text)) {
        Ok(v) => v,
        Err(_) => JsonView::Null,
    }
}

/// The value of an object's member, null where there is none.
pub open spec fn member_value(v: JsonView, key: Seq<char>) -> JsonView {
    match member_text(v, key) {
        Some(t) => value_of(t),
        None => JsonView::Null,
    }
}

/// The text that a value is, if it is one.
pub open spec fn text_in(v: JsonView) -> Option<Seq<char>> {
    match v {
        JsonView::Text(s) => Some(s),
        _ => None,
    }
}

/// The whole number of 64 bits that a value is, if it is one.
pub open spec fn number_in(v: JsonView) -> Option<u64> {
    match v {
        JsonView::Number(n, _) => n,
        _ => None,
    }
}

/// The value that a JSON text spells, null where it spells none.
pub(crate) fn value(text: &str) -> (r: Json)
    ensures
        r@ == value_of(text@),
{
    match parse_json(text.as_bytes()) {
        Ok(v) => v,
        Err(_) => Json::Null,
    }
}

impl Json {
    /// The text of an object's member, if there is one of that name.
    pub fn member(&self, key: &str) -> (r: Option<&str>)
        ensures
            match r {
                Some(t) => member_text(self@, key@) == Some(t@),
                None => member_text(self@, key@) is None,
            },
    {
        match self {
            Json::Object(members) => {
                let ghost all = Seq::new(
                    members@.len(),
                    |i: int| (members@[i].0@, members@[i].1@),
                );
                let mut i: usize = 0;
                proof {
                    assert(all.skip(0) =~= all);
                }
                while i < members.len()
                    invariant
                        i <= members.len(),
                        self@ == JsonView::Object(all),
                        all == Seq::new(
                            members@.len(),
                            |i: int| (members@[i].0@, members@[i].1@),
                        ),
                        first_member(all, key@) == first_member(all.skip(i as int), key@),
                    decreases members.len() - i,
                {
                    proof {
                        assert(all.skip(i as int).drop_first() =~= all.skip(i + 1));
                        assert(all.skip(i as int)[0] == all[i as int]);
                    }
                    if same_text(members[i].0.as_str(), key) {
                        return Some(members[i].1.as_str());
                    }
                    i = i + 1;
                }
                None
            },
            _ => None,
        }
    }

    /// The value of an object's member, null where there is none.
    pub fn get(&self, key: &str) -> (r: Json)
        ensures
            r@ == member_value(self@, key@),
    {
        match self.member(key) {
            Some(t) => value(t),
            None => Json::Null,
        }
    }

    /// The text that the value is, if it is one.
    pub fn into_text(self) -> (r: Option<String>)
        ensures
            match r {
                Some(s) => text_in(self@) == Some(s@),
                None => text_in(self@) is None,
            },
    {
        match self {
            Json::Text(s) => Some(s),
            _ => None,
        }
    }

    /// The whole number of 64 bits that the value is, if it is one.
    pub fn number(&self) -> (r: Option<u64>)
        ensures
            r == number_in(self@),
    {
        match self {
            Json::Number(n, _) => *n,
            _ => None,
        }
    }
}

/// The first member of a name is found, and nothing where there is none.
pub proof fn law_the_first_member_of_a_name_is_found(
    members: Seq<(Seq<char>, Seq<char>)>,
    key: Seq<char>,
    n: int,
)
    requires
        0 <= n <= members.len(),
        forall|i: int| 0 <= i < n ==> (#[trigger] members[i]).0 != key,
        n < members.len() ==> members[n].0 == key,
    ensures
        n < members.len() ==> member_text(JsonView::Object(members), key) == Some(members[n].1),
        n == members.len() ==> member_text(JsonView::Object(members), key) is None,
        n < members.len() ==> member_value(JsonView::Object(members), key) == value_of(
            members[n].1,
        ),
        n == members.len() ==> member_value(JsonView::Object(members), key) is Null,
    decreases n,
{
    if n > 0 {
        let rest = members.drop_first();
        assert(members[0].0 != key);
        assert forall|i: int| 0 <= i < n - 1 implies (#[trigger] rest[i]).0 != key by {
            assert(members[i + 1].0 != key);
        }
        law_the_first_member_of_a_name_is_found(rest, key, n - 1);
    }
}

/// A text is read from a text and a number from a number, and neither from anything else.
pub proof fn law_values_are_read_as_what_they_are(v: JsonView, s: Seq<char>, n: u64)
    ensures
        text_in(v) == Some(s) <==> v == JsonView::Text(s),
        number_in(v) == Some(n) ==> v is Number,
        v matches JsonView::Number(held, _) ==> number_in(v) == held,
        v is Text ==> number_in(v) is None,
        !(v is Text) ==> text_in(v) is None,
{
}

} // verus!
