//! JSON documents as the corpus records are read: a tree of plain values,
//! filled by serde_json's parser.
use vstd::prelude::*;

verus! {

/// A parsed JSON value. Numbers that are integers keep their value; other
/// numbers are only known to be numbers.
pub enum Json {
    Null,
    Bool(bool),
    Int(i128),
    Float,
    Str(String),
    Arr(Vec<Json>),
    /// An object's member names, and its member values in the same order.
    Obj(Vec<String>, Vec<Json>),
}

/// The mathematical value of a `Json`.
pub enum JsonV {
    Null,
    Bool(bool),
    Int(int),
    Float,
    Str(Seq<char>),
    Arr(Seq<JsonV>),
    Obj(Seq<(Seq<char>, JsonV)>),
}

impl View for Json {
    type V = JsonV;

    open spec fn view(&self) -> JsonV
        decreases self,
    {
        match self {
            Json::Null => JsonV::Null,
            Json::Bool(b) => JsonV::Bool(*b),
            Json::Int(i) => JsonV::Int(*i as int),
            Json::Float => JsonV::Float,
            Json::Str(s) => JsonV::Str(s@),
            Json::Arr(a) => JsonV::Arr(
                Seq::new(a@.len(), |i: int| if 0 <= i < a@.len() { a@[i].view() } else { JsonV::Null }),
            ),
            Json::Obj(k, v) => JsonV::Obj(
                Seq::new(k@.len(), |i: int| (k@[i]@, if 0 <= i < v@.len() { v@[i].view() } else { JsonV::Null })),
            ),
        }
    }
}

impl JsonV {
    /// serde_json's `value[key]`: the member named `key` of an object, `Null`
    /// where there is none or the value is not an object.
    pub open spec fn index(self, key: Seq<char>) -> JsonV {
        match self {
            JsonV::Obj(m) => member(m, key),
            _ => JsonV::Null,
        }
    }

    pub open spec fn as_str(self) -> Option<Seq<char>> {
        match self {
            JsonV::Str(s) => Some(s),
            _ => None,
        }
    }

    /// serde_json's `as_u64`: a non-negative integer that fits in 64 bits.
    pub open spec fn as_u64(self) -> Option<u64> {
        match self {
            JsonV::Int(i) => if 0 <= i <= u64::MAX {
                Some(i as u64)
            } else {
                None
            },
            _ => None,
        }
    }

    /// serde_json's `as_i64`: an integer that fits in a signed 64-bit word.
    pub open spec fn as_i64(self) -> Option<i64> {
        match self {
            JsonV::Int(i) => if i64::MIN <= i <= i64::MAX {
                Some(i as i64)
            } else {
                None
            },
            _ => None,
        }
    }

    pub open spec fn as_array(self) -> Option<Seq<JsonV>> {
        match self {
            JsonV::Arr(a) => Some(a),
            _ => None,
        }
    }

    pub open spec fn as_object(self) -> Option<Seq<(Seq<char>, JsonV)>> {
        match self {
            JsonV::Obj(m) => Some(m),
            _ => None,
        }
    }
}

/// The first member of `m` named `key`, or `Null`.
pub open spec fn member(m: Seq<(Seq<char>, JsonV)>, key: Seq<char>) -> JsonV
    decreases m.len(),
{
    if m.len() == 0 {
        JsonV::Null
    } else if m[0].0 == key {
        m[0].1
    } else {
        member(m.drop_first(), key)
    }
}

/// True exactly when the characters agree.
fn text_eq(a: &String, b: &str) -> (r: bool)
    ensures
        r == (a@ == b@),
{
    *a == b.to_owned()
}

impl Json {
    /// The member named `key`; `None` stands for serde_json's `Null`.
    pub fn index(&self, key: &str) -> (r: Option<&Json>)
        ensures
            match r {
                Some(x) => x@ == self@.index(key@),
                None => self@.index(key@) == JsonV::Null,
            },
    {
        match self {
            Json::Obj(k, v) => {
                let ghost mv = self@.as_object().unwrap();
                assert(self@ == JsonV::Obj(mv));
                let mut i: usize = 0;
                assert(mv.skip(0) =~= mv);
                while i < k.len()
                    invariant
                        0 <= i <= k@.len(),
                        self@ == JsonV::Obj(mv),
                        mv.len() == k@.len(),
                        forall|j: int| 0 <= j < k@.len() ==> #[trigger] mv[j] == (k@[j]@, if 0 <= j < v@.len() { v@[j]@ } else { JsonV::Null }),
                        member(mv, key@) == member(mv.skip(i as int), key@),
                    decreases k.len() - i,
                {
                    assert(mv.skip(i as int).drop_first() =~= mv.skip(i + 1));
                    assert(mv.skip(i as int)[0] == mv[i as int]);
                    if text_eq(&k[i], key) {
                        assert(mv[i as int].0 == key@);
                        assert(member(mv.skip(i as int), key@) == mv[i as int].1);
                        if i < v.len() {
                            return Some(&v[i]);
                        } else {
                            return None;
                        }
                    }
                    i = i + 1;
                }
                None
            },
            _ => None,
        }
    }

    pub fn as_str(&self) -> (r: Option<&String>)
        ensures
            match r {
                Some(s) => self@.as_str() == Some(s@),
                None => self@.as_str() is None,
            },
    {
        match self {
            Json::Str(s) => Some(s),
            _ => None,
        }
    }

    pub fn as_u64(&self) -> (r: Option<u64>)
        ensures
            r == self@.as_u64(),
    {
        match self {
            Json::Int(i) => if 0 <= *i && *i <= u64::MAX as i128 {
                Some(*i as u64)
            } else {
                None
            },
            _ => None,
        }
    }

    pub fn as_i64(&self) -> (r: Option<i64>)
        ensures
            r == self@.as_i64(),
    {
        match self {
            Json::Int(i) => if i64::MIN as i128 <= *i && *i <= i64::MAX as i128 {
                Some(*i as i64)
            } else {
                None
            },
            _ => None,
        }
    }

    pub fn as_array(&self) -> (r: Option<&Vec<Json>>)
        ensures
            match r {
                Some(a) => self@.as_array() == Some(a@.map_values(|x: Json| x@)),
                None => self@.as_array() is None,
            },
    {
        match self {
            Json::Arr(a) => {
                assert(self@.as_array().unwrap() =~= a@.map_values(|x: Json| x@));
                Some(a)
            },
            _ => None,
        }
    }

}

/// What serde_json makes of a JSON text, as a tree; `None` where the text is
/// not JSON.
pub uninterp spec fn json_text(b: Seq<u8>) -> Option<JsonV>;

/// The tree of plain values that a serde_json value holds: strings,
/// booleans, arrays and objects as they are, and each number as the integer
/// that `Number::as_i128` gives, if any.
pub uninterp spec fn tree_of(v: serde_json::Value) -> JsonV;

#[verifier::external_type_specification]
#[verifier::external_body]
pub struct ExJsonValue(serde_json::Value);

/// Relies on serde_json::from_slice: parses one JSON text into a value; the
/// outcome depends on the bytes alone.
#[verifier::external_body]
fn value_from_bytes(b: &[u8]) -> (r: Option<serde_json::Value>)
    ensures
        r is None <==> json_text(b@) is None,
        r matches Some(v) ==> json_text(b@) == Some(tree_of(v)),
{
    serde_json::from_slice::<serde_json::Value>(b).ok()
}

/// Relies on the variants of serde_json::Value and on
/// serde_json::Number::as_i128 (the integer a number holds, if any): copies
/// the value into a `Json`.
#[verifier::external_body]
fn value_tree(v: &serde_json::Value) -> (r: Json)
    ensures
        r@ == tree_of(*v),
{
    match v {
        serde_json::Value::Null => Json::Null,
        serde_json::Value::Bool(b) => Json::Bool(*b),
        serde_json::Value::Number(n) => match n.as_i128() {
            Some(i) => Json::Int(i),
            None => Json::Float,
        },
        serde_json::Value::String(s) => Json::Str(s.clone()),
        serde_json::Value::Array(a) => Json::Arr(a.iter().map(value_tree).collect()),
        serde_json::Value::Object(m) => Json::Obj(m.keys().cloned().collect(), m.values().map(value_tree).collect()),
    }
}

/// Parses one JSON text.
pub fn parse_json(b: &[u8]) -> (r: Option<Json>)
    ensures
        r is None <==> json_text(b@) is None,
        r matches Some(j) ==> json_text(b@) == Some(j@),
{
    match value_from_bytes(b) {
        Some(v) => Some(value_tree(&v)),
        None => None,
    }
}

} // verus!
