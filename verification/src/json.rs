//! JSON values: the shape of messages, tool calls and event data.
use crate::text::{opt_str, str_eq, texts};
use vstd::prelude::*;

verus! {

/// A JSON value. A number is a `Uint` when it is a natural number that fits, an
/// `Int` when it is a negative integer that fits, and otherwise a `Real`, which
/// keeps its text.
#[derive(Debug)]
pub enum Json {
    Null,
    Bool(bool),
    Uint(u64),
    Int(i64),
    Real(String),
    Str(String),
    Arr(Vec<Json>),
    Obj(Fields),
}

/// The members of a JSON object. Of two members with one name the later counts.
#[derive(Debug)]
pub struct Fields {
    pub entries: Vec<(String, Json)>,
}

/// What a JSON value holds.
pub enum JsonView {
    Null,
    Bool(bool),
    Uint(u64),
    Int(i64),
    Real(Seq<char>),
    Str(Seq<char>),
    Arr(Seq<JsonView>),
    Obj(Map<Seq<char>, JsonView>),
}

/// What a list of JSON values holds.
pub open spec fn jsons(v: Seq<Json>) -> Seq<JsonView>
    decreases v,
{
    if v.len() == 0 {
        Seq::empty()
    } else {
        jsons(v.drop_last()).push(v.last().tree())
    }
}

/// What a list of members holds.
pub open spec fn members(v: Seq<(String, Json)>) -> Map<Seq<char>, JsonView>
    decreases v,
{
    if v.len() == 0 {
        Map::empty()
    } else {
        members(v.drop_last()).insert(v.last().0@, v.last().1.tree())
    }
}

impl Json {
    /// What the value holds.
    pub open spec fn tree(self) -> JsonView
        decreases self,
    {
        match self {
            Json::Null => JsonView::Null,
            Json::Bool(b) => JsonView::Bool(b),
            Json::Uint(n) => JsonView::Uint(n),
            Json::Int(n) => JsonView::Int(n),
            Json::Real(s) => JsonView::Real(s@),
            Json::Str(s) => JsonView::Str(s@),
            Json::Arr(v) => JsonView::Arr(jsons(v@)),
            Json::Obj(f) => JsonView::Obj(members(f.entries@)),
        }
    }
}

impl View for Json {
    type V = JsonView;

    open spec fn view(&self) -> JsonView {
        self.tree()
    }
}

impl View for Fields {
    type V = Map<Seq<char>, JsonView>;

    open spec fn view(&self) -> Map<Seq<char>, JsonView> {
        members(self.entries@)
    }
}

/// What an optional JSON value holds.
pub open spec fn opt_json(o: Option<Json>) -> Option<JsonView> {
    match o {
        Some(j) => Some(j@),
        None => None,
    }
}

/// What an optional borrowed JSON value holds.
pub open spec fn opt_json_ref(o: Option<&Json>) -> Option<JsonView> {
    match o {
        Some(j) => Some(j@),
        None => None,
    }
}

/// A list of values holds as many values as it has.
pub broadcast proof fn lemma_jsons_len(v: Seq<Json>)
    ensures
        #[trigger] jsons(v).len() == v.len(),
    decreases v.len(),
{
    if v.len() > 0 {
        lemma_jsons_len(v.drop_last());
    }
}

/// A list of values holds, at each place, what the value there holds.
pub broadcast proof fn lemma_jsons_at(v: Seq<Json>, i: int)
    requires
        0 <= i < v.len(),
    ensures
        #[trigger] jsons(v)[i] == v[i]@,
    decreases v.len(),
{
    lemma_jsons_len(v);
    lemma_jsons_len(v.drop_last());
    if i < v.len() - 1 {
        lemma_jsons_at(v.drop_last(), i);
    }
}

pub broadcast group group_json {
    lemma_jsons_len,
    lemma_jsons_at,
}

/// Appending a value to a list appends what it holds.
pub proof fn lemma_jsons_push(v: Seq<Json>, j: Json)
    ensures
        jsons(v.push(j)) == jsons(v).push(j@),
{
    assert(v.push(j).drop_last() =~= v);
}

/// Joining two lists joins what they hold.
pub proof fn lemma_jsons_add(a: Seq<Json>, b: Seq<Json>)
    ensures
        jsons(a + b) == jsons(a) + jsons(b),
{
    broadcast use group_json;

    assert(jsons(a + b) =~= jsons(a) + jsons(b));
}

/// A part of a list holds the same part of what the list holds.
pub proof fn lemma_jsons_subrange(v: Seq<Json>, i: int, j: int)
    requires
        0 <= i <= j <= v.len(),
    ensures
        jsons(v.subrange(i, j)) == jsons(v).subrange(i, j),
{
    broadcast use group_json;

    assert(jsons(v.subrange(i, j)) =~= jsons(v).subrange(i, j));
}

// ---------------------------------------------------------------------------
// Reading a value
// ---------------------------------------------------------------------------

impl JsonView {
    /// The member of an object under a name; none in any other value.
    pub open spec fn get(self, key: Seq<char>) -> Option<JsonView> {
        match self {
            JsonView::Obj(m) => if m.contains_key(key) {
                Some(m[key])
            } else {
                None
            },
            _ => None,
        }
    }

    /// The text of a string.
    pub open spec fn as_str(self) -> Option<Seq<char>> {
        match self {
            JsonView::Str(s) => Some(s),
            _ => None,
        }
    }

    /// The value of a natural number that fits.
    pub open spec fn as_u64(self) -> Option<u64> {
        match self {
            JsonView::Uint(n) => Some(n),
            _ => None,
        }
    }

    /// The value of an integer that fits in an `i64`.
    pub open spec fn as_i64(self) -> Option<i64> {
        match self {
            JsonView::Uint(n) => if n <= i64::MAX {
                Some(n as i64)
            } else {
                None
            },
            JsonView::Int(n) => Some(n),
            _ => None,
        }
    }

    /// The value of a truth value.
    pub open spec fn as_bool(self) -> Option<bool> {
        match self {
            JsonView::Bool(b) => Some(b),
            _ => None,
        }
    }

    /// The elements of an array.
    pub open spec fn as_array(self) -> Option<Seq<JsonView>> {
        match self {
            JsonView::Arr(a) => Some(a),
            _ => None,
        }
    }

    /// The text of the string member under a name.
    pub open spec fn str_at(self, key: Seq<char>) -> Option<Seq<char>> {
        match self.get(key) {
            Some(v) => v.as_str(),
            None => None,
        }
    }

    /// The natural number under a name.
    pub open spec fn u64_at(self, key: Seq<char>) -> Option<u64> {
        match self.get(key) {
            Some(v) => v.as_u64(),
            None => None,
        }
    }

    /// The elements of the array member under a name.
    pub open spec fn array_at(self, key: Seq<char>) -> Option<Seq<JsonView>> {
        match self.get(key) {
            Some(v) => v.as_array(),
            None => None,
        }
    }

    /// The truth value under a name.
    pub open spec fn bool_at(self, key: Seq<char>) -> Option<bool> {
        match self.get(key) {
            Some(v) => v.as_bool(),
            None => None,
        }
    }

    /// The text of the string member under a name, empty when there is none.
    pub open spec fn text_at(self, key: Seq<char>) -> Seq<char> {
        match self.str_at(key) {
            Some(s) => s,
            None => Seq::empty(),
        }
    }

    /// An object with one member put in; any other value stays as it is.
    pub open spec fn with(self, key: Seq<char>, v: JsonView) -> JsonView {
        match self {
            JsonView::Obj(m) => JsonView::Obj(m.insert(key, v)),
            _ => self,
        }
    }
}

/// The member under a name in a list of members: the last one that has it.
proof fn lemma_members_last(v: Seq<(String, Json)>, key: Seq<char>, i: int)
    requires
        0 <= i < v.len(),
        v[i].0@ == key,
        forall|k: int| i < k < v.len() ==> v[k].0@ != key,
    ensures
        members(v).contains_key(key),
        members(v)[key] == v[i].1@,
    decreases v.len(),
{
    if i < v.len() - 1 {
        lemma_members_last(v.drop_last(), key, i);
    }
}

proof fn lemma_members_none(v: Seq<(String, Json)>, key: Seq<char>)
    requires
        forall|k: int| 0 <= k < v.len() ==> v[k].0@ != key,
    ensures
        !members(v).contains_key(key),
    decreases v.len(),
{
    if v.len() > 0 {
        lemma_members_none(v.drop_last(), key);
    }
}

proof fn lemma_members_push(v: Seq<(String, Json)>, e: (String, Json))
    ensures
        members(v.push(e)) == members(v).insert(e.0@, e.1@),
{
    assert(v.push(e).drop_last() =~= v);
}

impl Fields {
    /// No members.
    pub fn new() -> (r: Fields)
        ensures
            r@ == Map::<Seq<char>, JsonView>::empty(),
    {
        Fields { entries: Vec::new() }
    }

    /// The member under a name.
    pub fn get(&self, key: &str) -> (r: Option<&Json>)
        ensures
            opt_json_ref(r) == JsonView::Obj(self@).get(key@),
            r matches Some(j) ==> decreases_to!(*self => *j),
    {
        let mut i: usize = self.entries.len();
        while i > 0
            invariant
                i <= self.entries@.len(),
                forall|k: int| i <= k < self.entries@.len() ==> self.entries@[k].0@ != key@,
            decreases i,
        {
            i = i - 1;
            if str_eq(self.entries[i].0.as_str(), key) {
                proof {
                    lemma_members_last(self.entries@, key@, i as int);
                    assert(decreases_to!(self.entries => self.entries@[i as int]));
                    assert(decreases_to!(self.entries@[i as int] => self.entries@[i as int].1));
                }
                return Some(&self.entries[i].1);
            }
        }
        proof {
            lemma_members_none(self.entries@, key@);
        }
        None
    }

    /// Puts a member under a name in place of one that stands there.
    pub fn insert(&mut self, key: &str, value: Json)
        ensures
            final(self)@ == old(self)@.insert(key@, value@),
    {
        let k = key.to_owned();
        proof {
            lemma_members_push(self.entries@, (k, value));
        }
        self.entries.push((k, value));
    }

    /// Takes the member under a name away.
    pub fn remove(&mut self, key: &str)
        ensures
            final(self)@ == old(self)@.remove(key@),
    {
        let mut kept: Vec<(String, Json)> = Vec::new();
        let mut i: usize = 0;
        while i < self.entries.len()
            invariant
                i <= self.entries@.len(),
                members(kept@) == members(self.entries@.take(i as int)).remove(key@),
                self.entries == old(self).entries,
            decreases self.entries@.len() - i,
        {
            let e = &self.entries[i];
            proof {
                let t = self.entries@.take(i + 1);
                assert(t.drop_last() =~= self.entries@.take(i as int));
                assert(t.last() == self.entries@[i as int]);
            }
            if !str_eq(e.0.as_str(), key) {
                let copy = (e.0.clone(), e.1.clone());
                proof {
                    lemma_members_push(kept@, copy);
                }
                kept.push(copy);
            }
            assert(members(kept@) =~= members(self.entries@.take(i + 1)).remove(key@));
            i = i + 1;
        }
        assert(self.entries@.take(i as int) =~= self.entries@);
        self.entries = kept;
    }
}

impl Clone for Fields {
    fn clone(&self) -> (r: Self)
        ensures
            r@ == self@,
        decreases self,
    {
        let mut entries: Vec<(String, Json)> = Vec::new();
        let mut i: usize = 0;
        while i < self.entries.len()
            invariant
                i <= self.entries@.len(),
                members(entries@) == members(self.entries@.take(i as int)),
            decreases self.entries@.len() - i,
        {
            let e = &self.entries[i];
            proof {
                assert(decreases_to!(self.entries => self.entries@[i as int]));
                assert(decreases_to!(self.entries@[i as int] => self.entries@[i as int].1));
                let t = self.entries@.take(i + 1);
                assert(t.drop_last() =~= self.entries@.take(i as int));
                assert(t.last() == self.entries@[i as int]);
            }
            let copy = (e.0.clone(), e.1.clone());
            proof {
                lemma_members_push(entries@, copy);
            }
            entries.push(copy);
            i = i + 1;
        }
        assert(self.entries@.take(i as int) =~= self.entries@);
        Fields { entries }
    }
}

impl Clone for Json {
    fn clone(&self) -> (r: Self)
        ensures
            r@ == self@,
        decreases self,
    {
        match self {
            Json::Null => Json::Null,
            Json::Bool(b) => Json::Bool(*b),
            Json::Uint(n) => Json::Uint(*n),
            Json::Int(n) => Json::Int(*n),
            Json::Real(s) => Json::Real(s.clone()),
            Json::Str(s) => Json::Str(s.clone()),
            Json::Arr(v) => {
                let mut out: Vec<Json> = Vec::new();
                let mut i: usize = 0;
                while i < v.len()
                    invariant
                        *self == Json::Arr(*v),
                        i <= v@.len(),
                        jsons(out@) == jsons(v@.take(i as int)),
                    decreases v@.len() - i,
                {
                    proof {
                        assert(decreases_to!(*self => self->Arr_0));
                        assert(decreases_to!(*v => v@[i as int]));
                        let t = v@.take(i + 1);
                        assert(t.drop_last() =~= v@.take(i as int));
                        assert(t.last() == v@[i as int]);
                    }
                    let c = v[i].clone();
                    proof {
                        lemma_jsons_push(out@, c);
                    }
                    out.push(c);
                    i = i + 1;
                }
                assert(v@.take(i as int) =~= v@);
                Json::Arr(out)
            },
            Json::Obj(f) => Json::Obj(f.clone()),
        }
    }
}

impl Json {
    /// The string value of a text.
    pub fn str(s: &str) -> (r: Json)
        ensures
            r@ == JsonView::Str(s@),
    {
        Json::Str(s.to_owned())
    }

    /// The array of a list of values.
    pub fn array(v: Vec<Json>) -> (r: Json)
        ensures
            r@ == JsonView::Arr(jsons(v@)),
    {
        Json::Arr(v)
    }

    /// Whether the value is null.
    pub fn is_null(&self) -> (r: bool)
        ensures
            r == (self@ is Null),
    {
        match self {
            Json::Null => true,
            _ => false,
        }
    }

    /// The member of an object under a name; none in any other value.
    pub fn get(&self, key: &str) -> (r: Option<&Json>)
        ensures
            opt_json_ref(r) == self@.get(key@),
    {
        match self {
            Json::Obj(f) => f.get(key),
            _ => None,
        }
    }

    /// The text of a string.
    pub fn as_str(&self) -> (r: Option<&str>)
        ensures
            opt_str(r) == self@.as_str(),
    {
        match self {
            Json::Str(s) => Some(s.as_str()),
            _ => None,
        }
    }

    /// The value of a natural number that fits.
    pub fn as_u64(&self) -> (r: Option<u64>)
        ensures
            r == self@.as_u64(),
    {
        match self {
            Json::Uint(n) => Some(*n),
            _ => None,
        }
    }

    /// The value of an integer that fits in an `i64`.
    pub fn as_i64(&self) -> (r: Option<i64>)
        ensures
            r == self@.as_i64(),
    {
        match self {
            Json::Uint(n) => if *n <= i64::MAX as u64 {
                Some(*n as i64)
            } else {
                None
            },
            Json::Int(n) => Some(*n),
            _ => None,
        }
    }

    /// The value of a truth value.
    pub fn as_bool(&self) -> (r: Option<bool>)
        ensures
            r == self@.as_bool(),
    {
        match self {
            Json::Bool(b) => Some(*b),
            _ => None,
        }
    }

    /// The elements of an array.
    pub fn as_array(&self) -> (r: Option<&Vec<Json>>)
        ensures
            match r {
                Some(v) => self@.as_array() == Some(jsons(v@)),
                None => self@.as_array() is None,
            },
    {
        match self {
            Json::Arr(v) => Some(v),
            _ => None,
        }
    }

    /// The text of the string member under a name.
    pub fn str_at(&self, key: &str) -> (r: Option<&str>)
        ensures
            opt_str(r) == self@.str_at(key@),
    {
        match self.get(key) {
            Some(v) => v.as_str(),
            None => None,
        }
    }

    /// The text of the string member under a name, empty when there is none.
    pub fn text_at(&self, key: &str) -> (r: &str)
        ensures
            r@ == self@.text_at(key@),
    {
        match self.str_at(key) {
            Some(s) => s,
            None => {
                proof {
                    reveal_strlit("");
                    assert(""@ =~= Seq::<char>::empty());
                }
                ""
            },
        }
    }

    /// Whether the member under a name is the given string.
    pub fn is_at(&self, key: &str, text: &str) -> (r: bool)
        ensures
            r == (self@.str_at(key@) == Some(text@)),
    {
        match self.str_at(key) {
            Some(s) => str_eq(s, text),
            None => false,
        }
    }

    /// The natural number under a name.
    pub fn u64_at(&self, key: &str) -> (r: Option<u64>)
        ensures
            r == self@.u64_at(key@),
    {
        match self.get(key) {
            Some(v) => v.as_u64(),
            None => None,
        }
    }

    /// The truth value under a name.
    pub fn bool_at(&self, key: &str) -> (r: Option<bool>)
        ensures
            r == self@.bool_at(key@),
    {
        match self.get(key) {
            Some(v) => v.as_bool(),
            None => None,
        }
    }

    /// The elements of the array member under a name.
    pub fn array_at(&self, key: &str) -> (r: Option<&Vec<Json>>)
        ensures
            match r {
                Some(v) => self@.array_at(key@) == Some(jsons(v@)),
                None => self@.array_at(key@) is None,
            },
    {
        match self.get(key) {
            Some(v) => v.as_array(),
            None => None,
        }
    }

    /// A copy of an object with one member put in; a copy of any other value.
    pub fn with(&self, key: &str, value: Json) -> (r: Json)
        ensures
            r@ == self@.with(key@, value@),
    {
        match self {
            Json::Obj(f) => {
                let mut g = f.clone();
                g.insert(key, value);
                Json::Obj(g)
            },
            _ => self.clone(),
        }
    }
}

/// A copy of a list of values.
pub fn clone_jsons(v: &Vec<Json>) -> (r: Vec<Json>)
    ensures
        jsons(r@) == jsons(v@),
{
    broadcast use group_json;

    let mut out: Vec<Json> = Vec::new();
    let mut i: usize = 0;
    while i < v.len()
        invariant
            i <= v@.len(),
            out@.len() == i,
            forall|k: int| 0 <= k < i ==> (#[trigger] out@[k])@ == v@[k]@,
        decreases v@.len() - i,
    {
        out.push(v[i].clone());
        i = i + 1;
    }
    assert(jsons(out@) =~= jsons(v@));
    out
}

/// A copy of an optional value.
pub fn clone_opt_json(o: &Option<Json>) -> (r: Option<Json>)
    ensures
        opt_json(r) == opt_json(*o),
{
    match o {
        Some(j) => Some(j.clone()),
        None => None,
    }
}

/// A message with a role and a text.
pub open spec fn message(role: Seq<char>, content: JsonView) -> JsonView {
    JsonView::Obj(map!["role"@ => JsonView::Str(role), "content"@ => content])
}

/// Builds a message with a role and a content.
pub fn make_message(role: &str, content: Json) -> (r: Json)
    ensures
        r@ == message(role@, content@),
{
    let mut f = Fields::new();
    f.insert("role", Json::str(role));
    f.insert("content", content);
    Json::Obj(f)
}

/// The strings among the elements of an array, in order.
pub open spec fn strings_of(v: Seq<JsonView>) -> Seq<Seq<char>>
    decreases v.len(),
{
    if v.len() == 0 {
        Seq::empty()
    } else {
        let head = strings_of(v.drop_last());
        match v.last().as_str() {
            Some(s) => head.push(s),
            None => head,
        }
    }
}

/// Collects the strings among the elements of an array.
pub fn strings_in(v: &Vec<Json>) -> (r: Vec<String>)
    ensures
        texts(r@) == strings_of(jsons(v@)),
{
    broadcast use group_json;

    let mut out: Vec<String> = Vec::new();
    let mut i: usize = 0;
    while i < v.len()
        invariant
            i <= v@.len(),
            texts(out@) == strings_of(jsons(v@).take(i as int)),
        decreases v@.len() - i,
    {
        proof {
            lemma_jsons_len(v@);
            lemma_jsons_at(v@, i as int);
            let t = jsons(v@).take(i + 1);
            assert(t.drop_last() =~= jsons(v@).take(i as int));
            assert(t.last() == v@[i as int]@);
        }
        let ghost before = out@;
        if let Some(s) = v[i].as_str() {
            out.push(s.to_owned());
            assert(texts(out@) =~= texts(before).push(s@));
        }
        i = i + 1;
    }
    assert(jsons(v@).take(i as int) =~= jsons(v@));
    out
}

} // verus!
