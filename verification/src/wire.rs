//! JSON text: reading it with `serde_json` into the crate's own values, and the
//! few pieces of it that are written here.
use crate::decimal::{dec, dec_int};
use crate::json::{jsons, lemma_jsons_at, lemma_jsons_len, Fields, Json, JsonView};
use crate::lines::join;
use vstd::prelude::*;

verus! {

/// `serde_json::Value`, a parsed JSON value.
#[verifier::external_type_specification]
#[verifier::external_body]
pub struct ExValue(serde_json::Value);

/// `serde_json::Number`, a number in a parsed JSON value.
#[verifier::external_type_specification]
#[verifier::external_body]
pub struct ExNumber(serde_json::Number);

/// `serde_json::Error`, why a text was not read.
#[verifier::external_type_specification]
#[verifier::external_body]
pub struct ExError(serde_json::Error);

/// What a `serde_json::Value` holds.
pub uninterp spec fn value_tree(v: serde_json::Value) -> JsonView;

/// What a `serde_json::Number` can hold: a natural number, a negative number, or the
/// text of any other.
pub enum NumberView {
    Uint(u64),
    Int(i64),
    Real(Seq<char>),
}

/// What a `serde_json::Number` holds.
pub uninterp spec fn number_view(n: serde_json::Number) -> NumberView;

/// What a number is as a JSON value.
pub open spec fn number_tree(n: serde_json::Number) -> JsonView {
    match number_view(n) {
        NumberView::Uint(k) => JsonView::Uint(k),
        NumberView::Int(k) => JsonView::Int(k),
        NumberView::Real(s) => JsonView::Real(s),
    }
}

/// The message of a `serde_json::Error`.
pub uninterp spec fn error_message(e: serde_json::Error) -> Seq<char>;

/// What reading a JSON text comes to: the value, or the message of the error.
pub enum Reading {
    Value(JsonView),
    Failure(Seq<char>),
}

/// What `serde_json::from_str::<Value>` makes of a text.
pub uninterp spec fn json_read(text: Seq<char>) -> Reading;

/// What `serde_json::from_str::<Vec<u64>>` makes of a text.
pub uninterp spec fn numbers_read(text: Seq<char>) -> Option<Seq<u64>>;

/// What `serde_json::to_string` makes of a string.
pub uninterp spec fn quoted(text: Seq<char>) -> Seq<char>;

/// One level of a `serde_json::Value`.
pub enum Node {
    Null,
    Bool(bool),
    Number(serde_json::Number),
    Str(String),
    Arr(Vec<serde_json::Value>),
    Obj(Vec<(String, serde_json::Value)>),
}

/// What a list of values holds.
pub open spec fn value_trees(v: Seq<serde_json::Value>) -> Seq<JsonView> {
    v.map_values(|x: serde_json::Value| value_tree(x))
}

/// What a list of members holds.
pub open spec fn value_members(v: Seq<(String, serde_json::Value)>) -> Map<Seq<char>, JsonView>
    decreases v.len(),
{
    if v.len() == 0 {
        Map::empty()
    } else {
        value_members(v.drop_last()).insert(v.last().0@, value_tree(v.last().1))
    }
}

/// No two members of a list have one name.
pub open spec fn names_distinct(v: Seq<(String, serde_json::Value)>) -> bool {
    forall|i: int, j: int|
        0 <= i < j < v.len() ==> (#[trigger] v[i]).0@ != (#[trigger] v[j]).0@
}

/// `serde_json::from_str` into a `Value`: the value or the error that the text
/// is read as, named by `json_read`.
#[verifier::external_body]
fn read_value(text: &str) -> (r: Result<serde_json::Value, serde_json::Error>)
    ensures
        match r {
            Ok(v) => json_read(text@) == Reading::Value(value_tree(v)),
            Err(e) => json_read(text@) == Reading::Failure(error_message(e)),
        },
{
    serde_json::from_str::<serde_json::Value>(text)
}

/// `serde_json::Error`'s `to_string`: the message of the error.
#[verifier::external_body]
fn error_text(e: &serde_json::Error) -> (r: String)
    ensures
        r@ == error_message(*e),
{
    e.to_string()
}

/// The variant of a `serde_json::Value` with what it holds. The members of an
/// object come from a map, so that no two of them have one name.
#[verifier::external_body]
fn open_value(v: serde_json::Value) -> (n: Node)
    ensures
        match n {
            Node::Null => value_tree(v) == JsonView::Null,
            Node::Bool(b) => value_tree(v) == JsonView::Bool(b),
            Node::Number(x) => value_tree(v) == number_tree(x),
            Node::Str(s) => value_tree(v) == JsonView::Str(s@),
            Node::Arr(a) => value_tree(v) == JsonView::Arr(value_trees(a@)),
            Node::Obj(m) => value_tree(v) == JsonView::Obj(value_members(m@)) && names_distinct(m@),
        },
{
    match v {
        serde_json::Value::Null => Node::Null,
        serde_json::Value::Bool(b) => Node::Bool(b),
        serde_json::Value::Number(n) => Node::Number(n),
        serde_json::Value::String(s) => Node::Str(s),
        serde_json::Value::Array(a) => Node::Arr(a),
        serde_json::Value::Object(m) => Node::Obj(m.into_iter().collect()),
    }
}

/// `serde_json::Number::as_u64`: the value of a natural number that fits.
#[verifier::external_body]
fn number_u64(n: &serde_json::Number) -> (r: Option<u64>)
    ensures
        r == number_tree(*n).as_u64(),
{
    n.as_u64()
}

/// `serde_json::Number::as_i64`: the value of an integer that fits.
#[verifier::external_body]
fn number_i64(n: &serde_json::Number) -> (r: Option<i64>)
    ensures
        r == number_tree(*n).as_i64(),
{
    n.as_i64()
}

/// `serde_json::Number`'s `to_string`: the decimal numeral of an integer, and
/// otherwise the text that the number is kept with.
#[verifier::external_body]
fn number_text(n: &serde_json::Number) -> (r: String)
    ensures
        match number_view(*n) {
            NumberView::Uint(k) => r@ == dec(k as nat),
            NumberView::Int(k) => r@ == dec_int(k as int),
            NumberView::Real(s) => r@ == s,
        },
{
    n.to_string()
}

/// `serde_json::to_string` on a string: its JSON text, which reads back as the
/// string.
#[verifier::external_body]
pub(crate) fn quote(s: &str) -> (r: String)
    ensures
        r@ == quoted(s@),
        json_read(r@) == Reading::Value(JsonView::Str(s@)),
{
    serde_json::to_string(s).unwrap()
}

/// `serde_json::from_str` into a list of numbers.
#[verifier::external_body]
pub(crate) fn read_numbers(text: &str) -> (r: Option<Vec<u64>>)
    ensures
        match r {
            Some(v) => numbers_read(text@) == Some(v@),
            None => numbers_read(text@) is None,
        },
{
    serde_json::from_str::<Vec<u64>>(text).ok()
}

/// The numerals of a list of numbers.
pub open spec fn numerals(v: Seq<u64>) -> Seq<Seq<char>> {
    v.map_values(|n: u64| dec(n as nat))
}

/// `serde_json::to_string` on a list of numbers: the numerals in brackets with
/// commas between them, which read back as the list.
#[verifier::external_body]
pub(crate) fn write_numbers(v: &Vec<u64>) -> (r: String)
    ensures
        r@ == seq!['['] + join(numerals(v@), seq![',']) + seq![']'],
        numbers_read(r@) == Some(v@),
{
    serde_json::to_string(v).unwrap()
}

fn number_json(n: &serde_json::Number) -> (j: Json)
    ensures
        j@ == number_tree(*n),
{
    if let Some(k) = number_u64(n) {
        return Json::Uint(k);
    }
    if let Some(k) = number_i64(n) {
        return Json::Int(k);
    }
    Json::Real(number_text(n))
}

proof fn lemma_value_member(v: Seq<(String, serde_json::Value)>, i: int)
    requires
        names_distinct(v),
        0 <= i < v.len(),
    ensures
        value_members(v).dom().finite(),
        value_members(v).contains_key(v[i].0@),
        value_members(v)[v[i].0@] == value_tree(v[i].1),
    decreases v.len(),
{
    lemma_value_members_finite(v);
    if i < v.len() - 1 {
        let w = v.drop_last();
        assert forall|p: int, q: int| 0 <= p < q < w.len() implies (#[trigger] w[p]).0@ != (
        #[trigger] w[q]).0@ by {
            assert(w[p] == v[p] && w[q] == v[q]);
        }
        lemma_value_member(w, i);
        assert(v[i].0@ != v[v.len() - 1].0@);
    }
}

proof fn lemma_value_members_finite(v: Seq<(String, serde_json::Value)>)
    ensures
        value_members(v).dom().finite(),
    decreases v.len(),
{
    if v.len() > 0 {
        lemma_value_members_finite(v.drop_last());
    }
}

/// The crate's own form of a parsed value.
fn from_value(v: serde_json::Value) -> (j: Json)
    ensures
        j@ == value_tree(v),
    decreases value_tree(v),
{
    let ghost whole = value_tree(v);
    match open_value(v) {
        Node::Null => Json::Null,
        Node::Bool(b) => Json::Bool(b),
        Node::Number(n) => number_json(&n),
        Node::Str(s) => Json::Str(s),
        Node::Arr(a) => {
            let ghost all = a@;
            let mut rest = a;
            let mut rev: Vec<Json> = Vec::new();
            while rest.len() > 0
                invariant
                    whole == JsonView::Arr(value_trees(all)),
                    whole == value_tree(v),
                    rest@.len() <= all.len(),
                    rest@ == all.take(rest@.len() as int),
                    rev@.len() == all.len() - rest@.len(),
                    forall|k: int|
                        0 <= k < rev@.len() ==> (#[trigger] rev@[k])@ == value_tree(
                            all[all.len() - 1 - k],
                        ),
                decreases rest@.len(),
            {
                let ghost n = rest@.len() - 1;
                if let Some(x) = rest.pop() {
                    proof {
                        assert(x == all[n]);
                        assert(value_trees(all)[n] == value_tree(x));
                        assert(decreases_to!(whole => whole->Arr_0));
                        assert(decreases_to!(value_trees(all) => value_trees(all)[n]));
                        assert(rest@ =~= all.take(n));
                    }
                    let j = from_value(x);
                    rev.push(j);
                }
            }
            let mut out: Vec<Json> = Vec::new();
            while rev.len() > 0
                invariant
                    rev@.len() + out@.len() == all.len(),
                    forall|k: int|
                        0 <= k < rev@.len() ==> (#[trigger] rev@[k])@ == value_tree(
                            all[all.len() - 1 - k],
                        ),
                    forall|k: int|
                        0 <= k < out@.len() ==> (#[trigger] out@[k])@ == value_tree(all[k]),
                decreases rev@.len(),
            {
                if let Some(j) = rev.pop() {
                    out.push(j);
                }
            }
            proof {
                lemma_jsons_len(out@);
                assert forall|k: int| 0 <= k < out@.len() implies jsons(out@)[k] == value_trees(
                    all,
                )[k] by {
                    lemma_jsons_at(out@, k);
                }
                assert(jsons(out@) =~= value_trees(all));
            }
            Json::Arr(out)
        },
        Node::Obj(m) => {
            let ghost all = m@;
            let mut rest = m;
            let mut rev: Vec<(String, Json)> = Vec::new();
            while rest.len() > 0
                invariant
                    whole == JsonView::Obj(value_members(all)),
                    whole == value_tree(v),
                    names_distinct(all),
                    rest@.len() <= all.len(),
                    rest@ == all.take(rest@.len() as int),
                    rev@.len() == all.len() - rest@.len(),
                    forall|k: int|
                        0 <= k < rev@.len() ==> (#[trigger] rev@[k]).0@ == all[all.len() - 1 - k].0@
                            && rev@[k].1@ == value_tree(all[all.len() - 1 - k].1),
                decreases rest@.len(),
            {
                let ghost n = rest@.len() - 1;
                if let Some(x) = rest.pop() {
                    proof {
                        assert(x == all[n]);
                        lemma_value_member(all, n);
                        assert(decreases_to!(whole => whole->Obj_0));
                        assert(decreases_to!(value_members(all) => value_members(all)[x.0@]));
                        assert(rest@ =~= all.take(n));
                    }
                    let j = from_value(x.1);
                    rev.push((x.0, j));
                }
            }
            let mut f = Fields::new();
            while rev.len() > 0
                invariant
                    rev@.len() <= all.len(),
                    f@ == value_members(all.take(all.len() - rev@.len())),
                    forall|k: int|
                        0 <= k < rev@.len() ==> (#[trigger] rev@[k]).0@ == all[all.len() - 1 - k].0@
                            && rev@[k].1@ == value_tree(all[all.len() - 1 - k].1),
                decreases rev@.len(),
            {
                let ghost done = all.len() - rev@.len();
                if let Some(e) = rev.pop() {
                    f.insert(e.0.as_str(), e.1);
                    proof {
                        let t = all.take(done + 1);
                        assert(t.drop_last() =~= all.take(done));
                        assert(t.last() == all[done]);
                    }
                }
            }
            assert(all.take(all.len() as int) =~= all);
            Json::Obj(f)
        },
    }
}

/// Reads a JSON text.
pub fn parse_json(text: &str) -> (r: Result<Json, String>)
    ensures
        match r {
            Ok(j) => json_read(text@) == Reading::Value(j@),
            Err(e) => json_read(text@) == Reading::Failure(e@),
        },
{
    match read_value(text) {
        Ok(v) => Ok(from_value(v)),
        Err(e) => Err(error_text(&e)),
    }
}

} // verus!
