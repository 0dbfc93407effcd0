//! JSON values, their parsing, lookup and update by field.
use vstd::prelude::*;
use crate::text::{owned, same_text};

verus! {

/// A JSON number. A number that is no 64-bit integer keeps its text.
pub enum JsonNumber {
    Unsigned(u64),
    Negative(i64),
    Real(String),
}

/// A JSON value. The fields of an object keep their order.
pub enum Json {
    Null,
    Bool(bool),
    Number(JsonNumber),
    Text(String),
    Array(Vec<Json>),
    Object(Vec<(String, Json)>),
}

/// The model of a `JsonNumber`.
pub enum NumberView {
    Unsigned(u64),
    Negative(i64),
    Real(Seq<char>),
}

/// The model of a `Json`.
pub enum JsonView {
    Null,
    Bool(bool),
    Number(NumberView),
    Text(Seq<char>),
    Array(Seq<JsonView>),
    Object(Seq<(Seq<char>, JsonView)>),
}

impl View for JsonNumber {
    type V = NumberView;

    open spec fn view(&self) -> NumberView {
        match self {
            JsonNumber::Unsigned(n) => NumberView::Unsigned(*n),
            JsonNumber::Negative(n) => NumberView::Negative(*n),
            JsonNumber::Real(t) => NumberView::Real(t@),
        }
    }
}

impl View for Json {
    type V = JsonView;

    open spec fn view(&self) -> JsonView {
        json_model(*self)
    }
}

/// The model of a value.
pub open spec fn json_model(j: Json) -> JsonView
    decreases j,
{
    match j {
        Json::Null => JsonView::Null,
        Json::Bool(b) => JsonView::Bool(b),
        Json::Number(n) => JsonView::Number(n@),
        Json::Text(s) => JsonView::Text(s@),
        Json::Array(a) => JsonView::Array(
            Seq::new(
                a@.len(),
                |i: int|
                    if 0 <= i < a@.len() {
                        json_model(a@[i])
                    } else {
                        arbitrary()
                    },
            ),
        ),
        Json::Object(o) => JsonView::Object(
            Seq::new(
                o@.len(),
                |i: int|
                    if 0 <= i < o@.len() {
                        (o@[i].0@, json_model(o@[i].1))
                    } else {
                        arbitrary()
                    },
            ),
        ),
    }
}

/// The models of a row of values.
pub open spec fn items_view(a: Seq<Json>) -> Seq<JsonView> {
    Seq::new(a.len(), |i: int| a[i]@)
}

/// The models of the fields of an object.
pub open spec fn fields_view(o: Seq<(String, Json)>) -> Seq<(Seq<char>, JsonView)> {
    Seq::new(o.len(), |i: int| (o[i].0@, o[i].1@))
}

/// The view of an array or object is that of its parts.
pub broadcast proof fn lemma_json_view(j: Json)
    ensures
        #[trigger] j@ == match j {
            Json::Null => JsonView::Null,
            Json::Bool(b) => JsonView::Bool(b),
            Json::Number(n) => JsonView::Number(n@),
            Json::Text(s) => JsonView::Text(s@),
            Json::Array(a) => JsonView::Array(items_view(a@)),
            Json::Object(o) => JsonView::Object(fields_view(o@)),
        },
{
    match j {
        Json::Array(a) => {
            assert(j@->Array_0 =~= items_view(a@));
        },
        Json::Object(o) => {
            assert(j@->Object_0 =~= fields_view(o@));
        },
        _ => {},
    }
}

/// The position of the first field named `key`, or the number of fields.
pub open spec fn field_index(o: Seq<(Seq<char>, JsonView)>, key: Seq<char>) -> int
    decreases o.len(),
{
    if o.len() == 0 || o[0].0 == key {
        0
    } else {
        1 + field_index(o.drop_first(), key)
    }
}

/// The value of the field `key` of an object.
pub open spec fn field_of(j: JsonView, key: Seq<char>) -> Option<JsonView> {
    match j {
        JsonView::Object(o) => if 0 <= field_index(o, key) < o.len() {
            Some(o[field_index(o, key)].1)
        } else {
            None
        },
        _ => None,
    }
}

/// The fields `o` with `key` set to `value`: in its place where it is there,
/// behind the others where it is not.
pub open spec fn with_field(
    o: Seq<(Seq<char>, JsonView)>,
    key: Seq<char>,
    value: JsonView,
) -> Seq<(Seq<char>, JsonView)> {
    if 0 <= field_index(o, key) < o.len() {
        o.update(field_index(o, key), (o[field_index(o, key)].0, value))
    } else {
        o.push((key, value))
    }
}

/// `field_index` is the first position with that name.
pub proof fn lemma_field_index(o: Seq<(Seq<char>, JsonView)>, key: Seq<char>)
    ensures
        0 <= field_index(o, key) <= o.len(),
        forall|j: int| 0 <= j < field_index(o, key) ==> (#[trigger] o[j]).0 != key,
        field_index(o, key) < o.len() ==> o[field_index(o, key)].0 == key,
    decreases o.len(),
{
    if o.len() > 0 && o[0].0 != key {
        let t = o.drop_first();
        lemma_field_index(t, key);
        assert forall|j: int| 0 <= j < field_index(o, key) implies (#[trigger] o[j]).0 != key by {
            if j > 0 {
                assert(t[j - 1] == o[j]);
            }
        }
    }
}

/// A position with that name and none before it is `field_index`.
pub proof fn lemma_field_index_is(o: Seq<(Seq<char>, JsonView)>, key: Seq<char>, k: int)
    requires
        0 <= k <= o.len(),
        forall|j: int| 0 <= j < k ==> (#[trigger] o[j]).0 != key,
        k < o.len() ==> o[k].0 == key,
    ensures
        field_index(o, key) == k,
{
    lemma_field_index(o, key);
    let i = field_index(o, key);
    if i < k {
        assert(o[i].0 != key);
    } else if k < i {
        assert(o[k].0 != key);
    }
}

/// A field that was set reads back as the value it was set to, and every other
/// field reads as before.
pub proof fn lemma_field_after_set(
    o: Seq<(Seq<char>, JsonView)>,
    key: Seq<char>,
    value: JsonView,
    other: Seq<char>,
)
    ensures
        field_of(JsonView::Object(with_field(o, key, value)), key) == Some(value),
        other != key ==> field_of(JsonView::Object(with_field(o, key, value)), other) == field_of(
            JsonView::Object(o),
            other,
        ),
{
    lemma_field_index(o, key);
    let n = with_field(o, key, value);
    let k = field_index(o, key);
    lemma_field_index_is(n, key, k);
    if other != key {
        lemma_field_index(o, other);
        let i = field_index(o, other);
        if i < o.len() {
            lemma_field_index_is(n, other, i);
        } else {
            assert forall|j: int| 0 <= j < n.len() implies (#[trigger] n[j]).0 != other by {
                if j < o.len() {
                    assert(o[j].0 != other);
                }
            }
            lemma_field_index_is(n, other, n.len() as int);
        }
    }
}

impl Json {
    /// The value of the field `key`, where this is an object that has it.
    pub fn get(&self, key: &str) -> (r: Option<&Json>)
        ensures
            r is Some <==> field_of(self@, key@) is Some,
            r is Some ==> Some(r->0@) == field_of(self@, key@),
            r is Some ==> decreases_to!(*self => *r->0),
    {
        broadcast use lemma_json_view;

        match self {
            Json::Object(o) => {
                let k = find_field(o, key);
                if k < o.len() {
                    assert(decreases_to!(self => o));
                    assert(decreases_to!(o => o@));
                    assert(decreases_to!(o@ => o@[k as int]));
                    assert(decreases_to!(o@[k as int] => o@[k as int].1));
                    Some(&o[k].1)
                } else {
                    None
                }
            },
            _ => None,
        }
    }

    /// The text, where this is a string.
    pub fn as_str(&self) -> (r: Option<&String>)
        ensures
            r is Some <==> self@ is Text,
            r is Some ==> self@ == JsonView::Text(r->0@),
    {
        match self {
            Json::Text(s) => Some(s),
            _ => None,
        }
    }

    /// The number, where this is an integer from 0 to `u64::MAX`.
    pub fn as_u64(&self) -> (r: Option<u64>)
        ensures
            r == json_u64(self@),
    {
        match self {
            Json::Number(JsonNumber::Unsigned(n)) => Some(*n),
            _ => None,
        }
    }

    /// A copy of the value.
    pub fn copy(&self) -> (r: Json)
        ensures
            r@ == self@,
        decreases self,
    {
        broadcast use lemma_json_view;

        match self {
            Json::Null => Json::Null,
            Json::Bool(b) => Json::Bool(*b),
            Json::Number(n) => Json::Number(
                match n {
                    JsonNumber::Unsigned(x) => JsonNumber::Unsigned(*x),
                    JsonNumber::Negative(x) => JsonNumber::Negative(*x),
                    JsonNumber::Real(t) => JsonNumber::Real(t.clone()),
                },
            ),
            Json::Text(s) => Json::Text(s.clone()),
            Json::Array(a) => {
                let mut out: Vec<Json> = Vec::new();
                let mut i: usize = 0;
                while i < a.len()
                    invariant
                        i <= a@.len(),
                        decreases_to!(self => a),
                        out@.len() == i,
                        forall|k: int| 0 <= k < i ==> out@[k]@ == a@[k]@,
                    decreases a@.len() - i,
                {
                    assert(decreases_to!(a => a@));
                    assert(decreases_to!(a@ => a@[i as int]));
                    out.push(a[i].copy());
                    i = i + 1;
                }
                assert(items_view(out@) =~= items_view(a@));
                Json::Array(out)
            },
            Json::Object(o) => {
                let mut out: Vec<(String, Json)> = Vec::new();
                let mut i: usize = 0;
                while i < o.len()
                    invariant
                        i <= o@.len(),
                        decreases_to!(self => o),
                        out@.len() == i,
                        forall|k: int| 0 <= k < i ==> (#[trigger] out@[k]).0@ == o@[k].0@,
                        forall|k: int| 0 <= k < i ==> (#[trigger] out@[k]).1@ == o@[k].1@,
                    decreases o@.len() - i,
                {
                    assert(decreases_to!(o => o@));
                    assert(decreases_to!(o@ => o@[i as int]));
                    assert(decreases_to!(o@[i as int] => o@[i as int].1));
                    out.push((o[i].0.clone(), o[i].1.copy()));
                    i = i + 1;
                }
                assert(fields_view(out@) =~= fields_view(o@));
                Json::Object(out)
            },
        }
    }
}

/// The integer from 0 to `u64::MAX` that a value is.
pub open spec fn json_u64(j: JsonView) -> Option<u64> {
    match j {
        JsonView::Number(NumberView::Unsigned(n)) => Some(n),
        _ => None,
    }
}

/// The text that a value is.
pub open spec fn json_text(j: JsonView) -> Option<Seq<char>> {
    match j {
        JsonView::Text(s) => Some(s),
        _ => None,
    }
}

/// The position of the field `key` in `o`, or the number of fields.
pub fn find_field(o: &Vec<(String, Json)>, key: &str) -> (r: usize)
    ensures
        r == field_index(fields_view(o@), key@),
        r <= o@.len(),
        r < o@.len() ==> o@[r as int].0@ == key@,
{
    let mut i: usize = 0;
    while i < o.len()
        invariant
            i <= o@.len(),
            forall|j: int| 0 <= j < i ==> (#[trigger] fields_view(o@)[j]).0 != key@,
        decreases o@.len() - i,
    {
        if same_text(&o[i].0, key) {
            proof {
                lemma_field_index_is(fields_view(o@), key@, i as int);
            }
            return i;
        }
        i = i + 1;
    }
    proof {
        lemma_field_index_is(fields_view(o@), key@, i as int);
    }
    i
}

/// Sets the field `key` to `value`.
pub fn set_field(o: &mut Vec<(String, Json)>, key: &str, value: Json)
    ensures
        fields_view(final(o)@) == with_field(fields_view(old(o)@), key@, value@),
{
    let k = find_field(o, key);
    if k < o.len() {
        let name = owned(&o[k].0);
        o.set(k, (name, value));
    } else {
        o.push((owned(key), value));
    }
    assert(fields_view(o@) =~= with_field(fields_view(old(o)@), key@, value@));
}

/// The text of the string field `key`.
pub fn get_str(j: &Json, key: &str) -> (r: Option<String>)
    ensures
        r is Some <==> text_field(j@, key@) is Some,
        r is Some ==> Some(r->0@) == text_field(j@, key@),
{
    match j.get(key) {
        Some(v) => match v.as_str() {
            Some(s) => Some(s.clone()),
            None => None,
        },
        None => None,
    }
}

/// The text of the string field `key`.
pub open spec fn text_field(j: JsonView, key: Seq<char>) -> Option<Seq<char>> {
    match field_of(j, key) {
        Some(v) => json_text(v),
        None => None,
    }
}

// ---------------------------------------------------------------------------
// Merge patch
// ---------------------------------------------------------------------------

/// `target` after the merge patch `patch` (RFC 7396): an object patch sets each
/// of its fields to the merged value and removes those it gives as null; any
/// other patch replaces the target.
pub open spec fn merged(target: JsonView, patch: JsonView) -> JsonView
    decreases patch, 0nat,
{
    match patch {
        JsonView::Object(p) => {
            let base = match target {
                JsonView::Object(t) => t,
                _ => Seq::empty(),
            };
            JsonView::Object(merged_fields(base, p, p.len()))
        },
        _ => patch,
    }
}

/// The fields `base` after the first `n` fields of the patch `p`.
pub open spec fn merged_fields(
    base: Seq<(Seq<char>, JsonView)>,
    p: Seq<(Seq<char>, JsonView)>,
    n: nat,
) -> Seq<(Seq<char>, JsonView)>
    decreases p, n,
{
    if n == 0 || n > p.len() {
        base
    } else {
        let prev = merged_fields(base, p, (n - 1) as nat);
        let key = p[n - 1].0;
        let k = field_index(prev, key);
        if p[n - 1].1 is Null {
            if 0 <= k < prev.len() {
                prev.remove(k)
            } else {
                prev
            }
        } else {
            let at = if 0 <= k < prev.len() {
                prev[k].1
            } else {
                JsonView::Null
            };
            with_field(prev, key, merged(at, p[n - 1].1))
        }
    }
}

/// Applies the merge patch `patch` to `target`.
pub fn merge(target: Json, patch: &Json) -> (r: Json)
    ensures
        r@ == merged(target@, patch@),
    decreases patch,
{
    broadcast use lemma_json_view;

    match patch {
        Json::Object(p) => {
            let base = match target {
                Json::Object(t) => t,
                _ => Vec::new(),
            };
            let ghost b0 = match target@ {
                JsonView::Object(t) => t,
                _ => Seq::empty(),
            };
            assert(fields_view(base@) =~= b0);
            let mut fields = base;
            let mut i: usize = 0;
            while i < p.len()
                invariant
                    i <= p@.len(),
                    decreases_to!(patch => p),
                    fields_view(fields@) == merged_fields(b0, fields_view(p@), i as nat),
                decreases p@.len() - i,
            {
                assert(decreases_to!(p => p@));
                assert(decreases_to!(p@ => p@[i as int]));
                assert(decreases_to!(p@[i as int] => p@[i as int].1));
                let ghost prev = fields_view(fields@);
                let k = find_field(&fields, &p[i].0);
                let null = match p[i].1 {
                    Json::Null => true,
                    _ => false,
                };
                if null {
                    if k < fields.len() {
                        let _ = fields.remove(k);
                        assert(fields_view(fields@) =~= prev.remove(k as int));
                    }
                } else {
                    let at = if k < fields.len() {
                        fields[k].1.copy()
                    } else {
                        Json::Null
                    };
                    let v = merge(at, &p[i].1);
                    set_field(&mut fields, &p[i].0, v);
                }
                i = i + 1;
            }
            Json::Object(fields)
        },
        _ => patch.copy(),
    }
}

// ---------------------------------------------------------------------------
// Parsing
// ---------------------------------------------------------------------------

/// A parsed JSON document of the `serde_json` crate.
#[verifier::external_type_specification]
#[verifier::external_body]
pub struct ExValue(serde_json::Value);

/// The JSON value that a document holds. The fields of an object stand in the
/// order in which its map is walked.
pub uninterp spec fn document(v: serde_json::Value) -> JsonView;

/// One level of a document.
pub enum Node {
    Null,
    Bool(bool),
    Number(Option<u64>, Option<i64>, String),
    Text(String),
    Array(Vec<serde_json::Value>),
    Object(Vec<(String, serde_json::Value)>),
}

/// The number with the given readings.
pub open spec fn number_view(u: Option<u64>, s: Option<i64>, t: Seq<char>) -> NumberView {
    match (u, s) {
        (Some(n), _) => NumberView::Unsigned(n),
        (None, Some(n)) => NumberView::Negative(n),
        (None, None) => NumberView::Real(t),
    }
}

/// The value whose first level is `n`.
pub open spec fn node_view(n: Node) -> JsonView {
    match n {
        Node::Null => JsonView::Null,
        Node::Bool(b) => JsonView::Bool(b),
        Node::Number(u, s, t) => JsonView::Number(number_view(u, s, t@)),
        Node::Text(t) => JsonView::Text(t@),
        Node::Array(a) => JsonView::Array(Seq::new(a@.len(), |i: int| document(a@[i]))),
        Node::Object(o) => JsonView::Object(
            Seq::new(o@.len(), |i: int| (o@[i].0@, document(o@[i].1))),
        ),
    }
}

/// The variants of `serde_json::Value`, one for one. A number is given by
/// `Number::as_u64`, `Number::as_i64` and its text.
#[verifier::external_body]
fn open_document(v: serde_json::Value) -> (r: Node)
    ensures
        document(v) == node_view(r),
{
    match v {
        serde_json::Value::Null => Node::Null,
        serde_json::Value::Bool(b) => Node::Bool(b),
        serde_json::Value::Number(n) => Node::Number(n.as_u64(), n.as_i64(), n.to_string()),
        serde_json::Value::String(s) => Node::Text(s),
        serde_json::Value::Array(a) => Node::Array(a),
        serde_json::Value::Object(o) => Node::Object(o.into_iter().collect()),
    }
}

/// The value of a document.
fn json_of_document(v: serde_json::Value) -> (r: Json)
    ensures
        r@ == document(v),
    decreases document(v),
{
    broadcast use lemma_json_view;

    let ghost whole = document(v);
    match open_document(v) {
        Node::Null => Json::Null,
        Node::Bool(b) => Json::Bool(b),
        Node::Number(u, s, t) => match u {
            Some(n) => Json::Number(JsonNumber::Unsigned(n)),
            None => match s {
                Some(n) => Json::Number(JsonNumber::Negative(n)),
                None => Json::Number(JsonNumber::Real(t)),
            },
        },
        Node::Text(t) => Json::Text(t),
        Node::Array(a) => {
            let ghost all = a@;
            let mut rest = a;
            let mut back: Vec<Json> = Vec::new();
            assert(whole is Array);
            while rest.len() > 0
                invariant
                    whole == document(v),
                    whole is Array,
                    whole->Array_0 == Seq::new(all.len(), |i: int| document(all[i])),
                    rest@ == all.take(rest@.len() as int),
                    rest@.len() + back@.len() == all.len(),
                    forall|k: int|
                        0 <= k < back@.len() ==> (#[trigger] back@[k])@ == document(
                            all[all.len() - 1 - k],
                        ),
                decreases rest@.len(),
            {
                let ghost n = rest@.len() - 1;
                match rest.pop() {
                    Some(x) => {
                        assert(x == all[n]);
                        assert(whole->Array_0[n] == document(x));
                        assert(decreases_to!(whole => whole->Array_0));
                        assert(decreases_to!(whole->Array_0 => whole->Array_0[n]));
                        back.push(json_of_document(x));
                        assert(rest@ =~= all.take(n));
                    },
                    None => {},
                }
            }
            let mut out: Vec<Json> = Vec::new();
            let ghost kept = back@;
            while back.len() > 0
                invariant
                    back@ == kept.take(back@.len() as int),
                    back@.len() + out@.len() == all.len(),
                    kept.len() == all.len(),
                    forall|k: int|
                        0 <= k < kept.len() ==> (#[trigger] kept[k])@ == document(
                            all[all.len() - 1 - k],
                        ),
                    forall|k: int| 0 <= k < out@.len() ==> (#[trigger] out@[k])@ == document(all[k]),
                decreases back@.len(),
            {
                match back.pop() {
                    Some(x) => {
                        out.push(x);
                    },
                    None => {},
                }
            }
            assert(items_view(out@) =~= whole->Array_0);
            Json::Array(out)
        },
        Node::Object(o) => {
            let ghost all = o@;
            let mut rest = o;
            let mut back: Vec<(String, Json)> = Vec::new();
            while rest.len() > 0
                invariant
                    whole == document(v),
                    whole is Object,
                    whole->Object_0 == Seq::new(
                        all.len(),
                        |i: int| (all[i].0@, document(all[i].1)),
                    ),
                    rest@ == all.take(rest@.len() as int),
                    rest@.len() + back@.len() == all.len(),
                    forall|k: int|
                        0 <= k < back@.len() ==> (#[trigger] back@[k]).0@ == all[all.len() - 1
                            - k].0@ && back@[k].1@ == document(all[all.len() - 1 - k].1),
                decreases rest@.len(),
            {
                let ghost n = rest@.len() - 1;
                match rest.pop() {
                    Some(x) => {
                        assert(x == all[n]);
                        assert(whole->Object_0[n].1 == document(x.1));
                        assert(decreases_to!(whole => whole->Object_0));
                        assert(decreases_to!(whole->Object_0 => whole->Object_0[n]));
                        assert(decreases_to!(whole->Object_0[n] => whole->Object_0[n].1));
                        let (key, value) = x;
                        back.push((key, json_of_document(value)));
                        assert(rest@ =~= all.take(n));
                    },
                    None => {},
                }
            }
            let mut out: Vec<(String, Json)> = Vec::new();
            let ghost kept = back@;
            while back.len() > 0
                invariant
                    back@ == kept.take(back@.len() as int),
                    back@.len() + out@.len() == all.len(),
                    kept.len() == all.len(),
                    forall|k: int|
                        0 <= k < kept.len() ==> (#[trigger] kept[k]).0@ == all[all.len() - 1
                            - k].0@ && kept[k].1@ == document(all[all.len() - 1 - k].1),
                    forall|k: int|
                        0 <= k < out@.len() ==> (#[trigger] out@[k]).0@ == all[k].0@
                            && out@[k].1@ == document(all[k].1),
                decreases back@.len(),
            {
                match back.pop() {
                    Some(x) => {
                        out.push(x);
                    },
                    None => {},
                }
            }
            assert(fields_view(out@) =~= whole->Object_0);
            Json::Object(out)
        },
    }
}

/// The JSON value that a text stands for.
pub uninterp spec fn parsed_json(bytes: Seq<u8>) -> Option<JsonView>;

/// `serde_json::from_slice` for a `serde_json::Value`: the document that the
/// bytes stand for, a function of the bytes alone; `None` where it gives an
/// error.
#[verifier::external_body]
fn read_document(bytes: &[u8]) -> (r: Option<serde_json::Value>)
    ensures
        match r {
            Some(v) => parsed_json(bytes@) == Some(document(v)),
            None => parsed_json(bytes@) is None,
        },
{
    serde_json::from_slice::<serde_json::Value>(bytes).ok()
}

/// Parses a JSON text.
pub fn parse_json(bytes: &[u8]) -> (r: Option<Json>)
    ensures
        r is Some <==> parsed_json(bytes@) is Some,
        r is Some ==> Some(r->0@) == parsed_json(bytes@),
{
    match read_document(bytes) {
        Some(v) => Some(json_of_document(v)),
        None => None,
    }
}

/// A field that is set is read back, and the other fields read as before.
pub proof fn law_set_field_reads_back(
    o: Seq<(Seq<char>, JsonView)>,
    key: Seq<char>,
    value: JsonView,
    other: Seq<char>,
)
    ensures
        field_of(JsonView::Object(with_field(o, key, value)), key) == Some(value),
        other != key ==> field_of(JsonView::Object(with_field(o, key, value)), other) == field_of(
            JsonView::Object(o),
            other,
        ),
        text_field(JsonView::Object(with_field(o, key, value)), key) == match value {
            JsonView::Text(t) => Some(t),
            _ => None,
        },
        json_u64(value) is Some <==> value matches JsonView::Number(NumberView::Unsigned(_)),
{
    lemma_field_after_set(o, key, value, other);
}

/// A patch that is no object replaces its target, and an empty one keeps the fields
/// of the target.
pub proof fn law_plain_patch_replaces(target: JsonView, patch: JsonView)
    ensures
        !(patch is Object) ==> merged(target, patch) == patch,
        patch == JsonView::Object(Seq::empty()) && target is Object ==> merged(target, patch)
            == target,
{
}

proof fn lemma_removed_field(o: Seq<(Seq<char>, JsonView)>, k: int, other: Seq<char>)
    requires
        0 <= k < o.len(),
        o[k].0 != other,
    ensures
        field_of(JsonView::Object(o.remove(k)), other) == field_of(JsonView::Object(o), other),
{
    let r = o.remove(k);
    lemma_field_index(o, other);
    let i = field_index(o, other);
    let at = if i < k {
        i
    } else {
        i - 1
    };
    assert forall|j: int| 0 <= j < at implies (#[trigger] r[j]).0 != other by {
        if j < k {
            assert(r[j] == o[j]);
        } else {
            assert(r[j] == o[j + 1]);
        }
    }
    if i < o.len() {
        assert(r[at] == o[i]);
        lemma_field_index_is(r, other, at);
    } else {
        lemma_field_index_is(r, other, r.len() as int);
    }
}

/// A patch leaves alone every field that it does not name.
pub proof fn law_patch_keeps_other_fields(
    base: Seq<(Seq<char>, JsonView)>,
    p: Seq<(Seq<char>, JsonView)>,
    n: nat,
    key: Seq<char>,
)
    requires
        n <= p.len(),
        forall|i: int| 0 <= i < n ==> (#[trigger] p[i]).0 != key,
    ensures
        field_of(JsonView::Object(merged_fields(base, p, n)), key) == field_of(
            JsonView::Object(base),
            key,
        ),
    decreases n,
{
    if n > 0 {
        let m = (n - 1) as nat;
        law_patch_keeps_other_fields(base, p, m, key);
        let prev = merged_fields(base, p, m);
        let named = p[m as int].0;
        assert(named != key);
        lemma_field_index(prev, named);
        let k = field_index(prev, named);
        if p[m as int].1 is Null {
            if k < prev.len() {
                lemma_removed_field(prev, k, key);
            }
        } else {
            let at = if 0 <= k < prev.len() {
                prev[k].1
            } else {
                JsonView::Null
            };
            lemma_field_after_set(prev, named, merged(at, p[m as int].1), key);
        }
    }
}

/// A patch that names a field once sets it to its value, where that is no object
/// and not null, and takes it out where it is null.
pub proof fn law_patch_sets_named_field(
    target: Seq<(Seq<char>, JsonView)>,
    key: Seq<char>,
    value: JsonView,
)
    requires
        forall|i: int, j: int|
            0 <= i < j < target.len() ==> (#[trigger] target[i]).0 != (#[trigger] target[j]).0,
    ensures
        ({
            let after = merged(JsonView::Object(target), JsonView::Object(seq![(key, value)]));
            &&& value is Null ==> field_of(after, key) is None
            &&& !(value is Null) && !(value is Object) ==> field_of(after, key) == Some(value)
        }),
{
    let p = seq![(key, value)];
    reveal_with_fuel(merged_fields, 2);
    reveal_with_fuel(merged, 2);
    assert(merged_fields(target, p, 0) == target);
    let k = field_index(target, key);
    lemma_field_index(target, key);
    if value is Null {
        if k < target.len() {
            let r = target.remove(k);
            assert forall|j: int| 0 <= j < r.len() implies (#[trigger] r[j]).0 != key by {
                if j < k {
                    assert(r[j] == target[j]);
                } else {
                    assert(r[j] == target[j + 1]);
                    assert(target[k].0 != target[j + 1].0);
                }
            }
            lemma_field_index_is(r, key, r.len() as int);
        }
    } else {
        let at = if k < target.len() {
            target[k].1
        } else {
            JsonView::Null
        };
        lemma_field_after_set(target, key, merged(at, value), key);
    }
}

} // verus!
