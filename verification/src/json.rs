//! JSON values as the tree editor reads and writes them.
//!
//! A number is held as the text that JSON prints for it (for example
//! `8080`, `-3` or `30.0`); the editor only shows numbers, reads integers
//! from text, and stores what it read.
use vstd::prelude::*;
use crate::text::str_eq;

verus! {

/// A JSON value. An object is a list of entries; a key is looked up at
/// its first entry. Objects that the editor builds hold their entries in
/// key order, as a JSON map ordered by key does.
#[derive(Debug, PartialEq)]
pub enum JsonValue {
    Null,
    Bool(bool),
    Number(String),
    String(String),
    Array(Vec<JsonValue>),
    Object(Vec<(String, JsonValue)>),
}

/// The mathematical JSON value that a `JsonValue` stands for.
#[verifier::ext_equal]
pub enum Json {
    Null,
    Bool(bool),
    Number(Seq<char>),
    Str(Seq<char>),
    Array(Seq<Json>),
    Object(Seq<(Seq<char>, Json)>),
}

pub open spec fn json_view(v: JsonValue) -> Json
    decreases v,
{
    match v {
        JsonValue::Null => Json::Null,
        JsonValue::Bool(b) => Json::Bool(b),
        JsonValue::Number(s) => Json::Number(s@),
        JsonValue::String(s) => Json::Str(s@),
        JsonValue::Array(a) => Json::Array(json_seq_view(a@)),
        JsonValue::Object(o) => Json::Object(json_entries_view(o@)),
    }
}

pub open spec fn json_seq_view(s: Seq<JsonValue>) -> Seq<Json>
    decreases s,
{
    if s.len() == 0 {
        Seq::empty()
    } else {
        json_seq_view(s.drop_last()).push(json_view(s.last()))
    }
}

pub open spec fn json_entries_view(s: Seq<(String, JsonValue)>) -> Seq<(Seq<char>, Json)>
    decreases s,
{
    if s.len() == 0 {
        Seq::empty()
    } else {
        json_entries_view(s.drop_last()).push((s.last().0@, json_view(s.last().1)))
    }
}

impl View for JsonValue {
    type V = Json;

    open spec fn view(&self) -> Json {
        json_view(*self)
    }
}

pub proof fn lemma_json_seq_view(s: Seq<JsonValue>)
    ensures
        json_seq_view(s).len() == s.len(),
        forall|i: int| 0 <= i < s.len() ==> #[trigger] json_seq_view(s)[i] == json_view(s[i]),
    decreases s.len(),
{
    if s.len() > 0 {
        lemma_json_seq_view(s.drop_last());
        assert forall|i: int| 0 <= i < s.len() implies #[trigger] json_seq_view(s)[i] == json_view(s[i]) by {
            if i < s.len() - 1 {
                assert(s.drop_last()[i] == s[i]);
            }
        }
    }
}

pub proof fn lemma_json_entries_view(s: Seq<(String, JsonValue)>)
    ensures
        json_entries_view(s).len() == s.len(),
        forall|i: int|
            0 <= i < s.len() ==> #[trigger] json_entries_view(s)[i] == (s[i].0@, json_view(s[i].1)),
    decreases s.len(),
{
    if s.len() > 0 {
        lemma_json_entries_view(s.drop_last());
        assert forall|i: int| 0 <= i < s.len() implies #[trigger] json_entries_view(s)[i] == (
        s[i].0@, json_view(s[i].1)) by {
            if i < s.len() - 1 {
                assert(s.drop_last()[i] == s[i]);
            }
        }
    }
}

// ---------------------------------------------------------------------
// Looking things up
// ---------------------------------------------------------------------

/// Index of the first entry of `e` whose key is `key`.
pub open spec fn first_index(e: Seq<(Seq<char>, Json)>, key: Seq<char>) -> Option<int> {
    if exists|i: int| 0 <= i < e.len() && (#[trigger] e[i]).0 == key {
        Some(
            choose|i: int|
                0 <= i < e.len() && (#[trigger] e[i]).0 == key && forall|j: int|
                    0 <= j < i ==> (#[trigger] e[j]).0 != key,
        )
    } else {
        None
    }
}

/// The first index is well defined: it is the least index with the key.
pub proof fn lemma_first_index(e: Seq<(Seq<char>, Json)>, key: Seq<char>, k: int)
    requires
        0 <= k < e.len(),
        e[k].0 == key,
        forall|j: int| 0 <= j < k ==> (#[trigger] e[j]).0 != key,
    ensures
        first_index(e, key) == Some(k),
{
    let i = choose|i: int|
        0 <= i < e.len() && (#[trigger] e[i]).0 == key && forall|j: int|
            0 <= j < i ==> (#[trigger] e[j]).0 != key;
    assert(0 <= i < e.len() && e[i].0 == key && forall|j: int| 0 <= j < i ==> (#[trigger] e[j]).0 != key);
    if i < k {
        assert(e[i].0 != key);
    } else if k < i {
        assert(e[k].0 != key);
    }
}

/// The value of `key` in the entries `e`: that of its first entry.
pub open spec fn obj_get(e: Seq<(Seq<char>, Json)>, key: Seq<char>) -> Option<Json> {
    match first_index(e, key) {
        Some(i) => Some(e[i].1),
        None => None,
    }
}

/// Whether `key` has an entry in `e`.
pub open spec fn obj_has(e: Seq<(Seq<char>, Json)>, key: Seq<char>) -> bool {
    exists|i: int| 0 <= i < e.len() && (#[trigger] e[i]).0 == key
}

/// `Value::get(key)`: the value of `key` when `v` is an object.
pub open spec fn json_get(v: Json, key: Seq<char>) -> Option<Json> {
    match v {
        Json::Object(e) => obj_get(e, key),
        _ => None,
    }
}

pub open spec fn json_as_str(v: Json) -> Option<Seq<char>> {
    match v {
        Json::Str(s) => Some(s),
        _ => None,
    }
}

pub open spec fn json_as_array(v: Json) -> Option<Seq<Json>> {
    match v {
        Json::Array(a) => Some(a),
        _ => None,
    }
}

pub open spec fn json_as_object(v: Json) -> Option<Seq<(Seq<char>, Json)>> {
    match v {
        Json::Object(e) => Some(e),
        _ => None,
    }
}

pub open spec fn json_as_bool(v: Json) -> Option<bool> {
    match v {
        Json::Bool(b) => Some(b),
        _ => None,
    }
}

/// `v.get(key).and_then(as_str)`.
pub open spec fn get_str(v: Json, key: Seq<char>) -> Option<Seq<char>> {
    match json_get(v, key) {
        Some(x) => json_as_str(x),
        None => None,
    }
}

/// `v.get(key).and_then(as_array)`.
pub open spec fn get_array(v: Json, key: Seq<char>) -> Option<Seq<Json>> {
    match json_get(v, key) {
        Some(x) => json_as_array(x),
        None => None,
    }
}

/// `v.get(key).and_then(as_object)`.
pub open spec fn get_object(v: Json, key: Seq<char>) -> Option<Seq<(Seq<char>, Json)>> {
    match json_get(v, key) {
        Some(x) => json_as_object(x),
        None => None,
    }
}

impl Clone for JsonValue {
    /// A copy of this value (see `deep_clone`).
    fn clone(&self) -> (r: JsonValue)
        ensures
            r@ == self@,
    {
        self.deep_clone()
    }
}

/// Looks `key` up among object entries.
pub fn entries_get<'a>(e: &'a Vec<(String, JsonValue)>, key: &str) -> (r: Option<&'a JsonValue>)
    ensures
        r matches Some(x) ==> obj_get(json_entries_view(e@), key@) == Some(x@),
        r is None ==> obj_get(json_entries_view(e@), key@) is None,
{
    let ghost ev = json_entries_view(e@);
    proof {
        lemma_json_entries_view(e@);
    }
    let mut i: usize = 0;
    while i < e.len()
        invariant
            i <= e@.len(),
            ev == json_entries_view(e@),
            ev.len() == e@.len(),
            forall|j: int| 0 <= j < e@.len() ==> #[trigger] ev[j] == (e@[j].0@, json_view(e@[j].1)),
            forall|j: int| 0 <= j < i ==> (#[trigger] ev[j]).0 != key@,
        decreases e@.len() - i,
    {
        if str_eq(e[i].0.as_str(), key) {
            proof {
                lemma_first_index(ev, key@, i as int);
            }
            return Some(&e[i].1);
        }
        i = i + 1;
    }
    None
}

impl JsonValue {
    /// `Value::get`: the value of `key` when this is an object.
    pub fn get(&self, key: &str) -> (r: Option<&JsonValue>)
        ensures
            r matches Some(x) ==> json_get(self@, key@) == Some(x@),
            r is None ==> json_get(self@, key@) is None,
    {
        match self {
            JsonValue::Object(e) => entries_get(e, key),
            _ => None,
        }
    }

    /// The string, for a string value.
    pub fn as_str(&self) -> (r: Option<&String>)
        ensures
            r matches Some(s) ==> json_as_str(self@) == Some(s@),
            r is None ==> json_as_str(self@) is None,
    {
        match self {
            JsonValue::String(s) => Some(s),
            _ => None,
        }
    }

    /// The items, for an array.
    pub fn as_array(&self) -> (r: Option<&Vec<JsonValue>>)
        ensures
            r matches Some(a) ==> json_as_array(self@) == Some(json_seq_view(a@)),
            r is None ==> json_as_array(self@) is None,
    {
        match self {
            JsonValue::Array(a) => Some(a),
            _ => None,
        }
    }

    /// The entries, for an object.
    pub fn as_object(&self) -> (r: Option<&Vec<(String, JsonValue)>>)
        ensures
            r matches Some(e) ==> json_as_object(self@) == Some(json_entries_view(e@)),
            r is None ==> json_as_object(self@) is None,
    {
        match self {
            JsonValue::Object(e) => Some(e),
            _ => None,
        }
    }

    /// The boolean, for a boolean value.
    pub fn as_bool(&self) -> (r: Option<bool>)
        ensures
            r == json_as_bool(self@),
    {
        match self {
            JsonValue::Bool(b) => Some(*b),
            _ => None,
        }
    }

    /// Whether the value is null.
    pub fn is_null(&self) -> (r: bool)
        ensures
            r == (self@ == Json::Null),
    {
        match self {
            JsonValue::Null => true,
            _ => false,
        }
    }

    /// A copy of this value.
    #[verifier::loop_isolation(false)]
    pub fn deep_clone(&self) -> (r: JsonValue)
        ensures
            r@ == self@,
        decreases self,
    {
        match self {
            JsonValue::Null => JsonValue::Null,
            JsonValue::Bool(b) => JsonValue::Bool(*b),
            JsonValue::Number(s) => JsonValue::Number(s.clone()),
            JsonValue::String(s) => JsonValue::String(s.clone()),
            JsonValue::Array(a) => {
                let mut out: Vec<JsonValue> = Vec::new();
                let mut i: usize = 0;
                while i < a.len()
                    invariant
                        i <= a.len(),
                        json_seq_view(out@) == json_seq_view(a@.take(i as int)),
                        out@.len() == i,
                    decreases a.len() - i,
                {
                    proof {
                        assert(decreases_to!(*self => self->Array_0));
                    }
                    let c = a[i].deep_clone();
                    proof {
                        assert(a@.take(i + 1).drop_last() =~= a@.take(i as int));
                        assert(out@.push(c).drop_last() =~= out@);
                    }
                    out.push(c);
                    i = i + 1;
                }
                assert(a@.take(a@.len() as int) =~= a@);
                JsonValue::Array(out)
            },
            JsonValue::Object(o) => {
                proof {
                    assert(decreases_to!(*self => self->Object_0));
                }
                let out = clone_entries(o);
                JsonValue::Object(out)
            },
        }
    }
}

/// A copy of object entries.
#[verifier::loop_isolation(false)]
pub fn clone_entries(o: &Vec<(String, JsonValue)>) -> (out: Vec<(String, JsonValue)>)
    ensures
        json_entries_view(out@) == json_entries_view(o@),
        out@.len() == o@.len(),
        forall|i: int| 0 <= i < o@.len() ==> (#[trigger] out@[i]).0@ == o@[i].0@,
    decreases o,
{
    let mut out: Vec<(String, JsonValue)> = Vec::new();
    let mut i: usize = 0;
    while i < o.len()
        invariant
            i <= o.len(),
            json_entries_view(out@) == json_entries_view(o@.take(i as int)),
            out@.len() == i,
            forall|j: int| 0 <= j < i ==> (#[trigger] out@[j]).0@ == o@[j].0@,
        decreases o.len() - i,
    {
        let k = o[i].0.clone();
        proof {
            assert(decreases_to!(o => o@));
            assert(decreases_to!(o@ => o@[i as int]));
            assert(decreases_to!(o@[i as int] => o@[i as int].1));
        }
        let c = o[i].1.deep_clone();
        proof {
            assert(o@.take(i + 1).drop_last() =~= o@.take(i as int));
            assert(out@.push((k, c)).drop_last() =~= out@);
        }
        out.push((k, c));
        i = i + 1;
    }
    assert(o@.take(o@.len() as int) =~= o@);
    out
}

/// Keys are ordered as strings are: character by character by code
/// point, a proper prefix first.
pub open spec fn key_less(a: Seq<char>, b: Seq<char>) -> bool
    decreases a.len(),
{
    if b.len() == 0 {
        false
    } else if a.len() == 0 {
        true
    } else if a[0] != b[0] {
        (a[0] as u32) < (b[0] as u32)
    } else {
        key_less(a.drop_first(), b.drop_first())
    }
}

/// Whether `a` comes before `b` in key order (see `key_less`).
pub fn key_less_exec(a: &str, b: &str) -> (r: bool)
    ensures
        r == key_less(a@, b@),
{
    let av = crate::text::chars_of(a);
    let bv = crate::text::chars_of(b);
    let mut i: usize = 0;
    proof {
        assert(av@.skip(0) =~= a@);
        assert(bv@.skip(0) =~= b@);
    }
    while i < av.len() && i < bv.len()
        invariant
            av@ == a@,
            bv@ == b@,
            i <= av@.len(),
            i <= bv@.len(),
            key_less(a@, b@) == key_less(av@.skip(i as int), bv@.skip(i as int)),
        decreases av@.len() - i,
    {
        let x = av[i];
        let y = bv[i];
        proof {
            assert(av@.skip(i as int)[0] == x);
            assert(bv@.skip(i as int)[0] == y);
        }
        if x != y {
            return (x as u32) < (y as u32);
        }
        proof {
            assert(av@.skip(i as int).drop_first() =~= av@.skip(i + 1));
            assert(bv@.skip(i as int).drop_first() =~= bv@.skip(i + 1));
        }
        i = i + 1;
    }
    i < bv.len()
}

/// No key comes before itself.
pub proof fn lemma_key_less_irreflexive(a: Seq<char>)
    ensures
        !key_less(a, a),
    decreases a.len(),
{
    if a.len() > 0 {
        lemma_key_less_irreflexive(a.drop_first());
    }
}

/// Key order is transitive.
pub proof fn lemma_key_less_transitive(a: Seq<char>, b: Seq<char>, c: Seq<char>)
    requires
        key_less(a, b),
        key_less(b, c),
    ensures
        key_less(a, c),
    decreases a.len(),
{
    if a.len() > 0 && b.len() > 0 && c.len() > 0 && a[0] == b[0] && b[0] == c[0] {
        lemma_key_less_transitive(a.drop_first(), b.drop_first(), c.drop_first());
    }
}

/// Of two different keys, one comes before the other.
pub proof fn lemma_key_less_total(a: Seq<char>, b: Seq<char>)
    requires
        a != b,
    ensures
        key_less(a, b) || key_less(b, a),
    decreases a.len(),
{
    if a.len() == 0 || b.len() == 0 {
        if a.len() == 0 && b.len() == 0 {
            assert(a =~= b);
        }
    } else if a[0] == b[0] {
        if a.drop_first() == b.drop_first() {
            assert(a =~= seq![a[0]] + a.drop_first());
            assert(b =~= seq![b[0]] + b.drop_first());
        }
        lemma_key_less_total(a.drop_first(), b.drop_first());
    } else {
        vstd::utf8::char_u32_cast(a[0], a[0] as u32);
        vstd::utf8::char_u32_cast(b[0], b[0] as u32);
    }
}

/// The entries' keys are in strictly increasing key order.
pub open spec fn keys_ordered(e: Seq<(Seq<char>, Json)>) -> bool {
    forall|i: int, j: int| 0 <= i < j < e.len() ==> key_less((#[trigger] e[i]).0, (#[trigger] e[j]).0)
}

/// Where a new `key` goes among the entries `e`: before the first entry
/// whose key comes after it, else at the end. On entries in key order
/// this keeps them in key order.
pub open spec fn insert_pos(e: Seq<(Seq<char>, Json)>, key: Seq<char>) -> int {
    if exists|i: int| 0 <= i < e.len() && key_less(key, (#[trigger] e[i]).0) {
        choose|i: int|
            0 <= i < e.len() && key_less(key, (#[trigger] e[i]).0) && forall|j: int|
                0 <= j < i ==> !key_less(key, (#[trigger] e[j]).0)
    } else {
        e.len() as int
    }
}

/// The insertion place is the least index whose key comes after `key`.
pub proof fn lemma_insert_pos(e: Seq<(Seq<char>, Json)>, key: Seq<char>, k: int)
    requires
        0 <= k <= e.len(),
        k < e.len() ==> key_less(key, e[k].0),
        forall|j: int| 0 <= j < k ==> !key_less(key, (#[trigger] e[j]).0),
    ensures
        insert_pos(e, key) == k,
{
    if k < e.len() {
        let i = choose|i: int|
            0 <= i < e.len() && key_less(key, (#[trigger] e[i]).0) && forall|j: int|
                0 <= j < i ==> !key_less(key, (#[trigger] e[j]).0);
        assert(key_less(key, e[k].0));
        assert(0 <= i < e.len() && key_less(key, e[i].0) && forall|j: int|
            0 <= j < i ==> !key_less(key, (#[trigger] e[j]).0));
        if i < k {
            assert(!key_less(key, e[i].0));
        } else if k < i {
            assert(!key_less(key, e[k].0));
        }
    } else {
        if exists|i: int| 0 <= i < e.len() && key_less(key, (#[trigger] e[i]).0) {
            let i = choose|i: int| 0 <= i < e.len() && key_less(key, (#[trigger] e[i]).0);
            assert(!key_less(key, e[i].0));
        }
    }
}

/// `Map::insert` on a map ordered by key: replaces the value of the
/// first entry with `key`, or adds an entry at its place in key order.
pub open spec fn obj_insert(e: Seq<(Seq<char>, Json)>, key: Seq<char>, v: Json) -> Seq<(Seq<char>, Json)> {
    match first_index(e, key) {
        Some(i) => e.update(i, (key, v)),
        None => e.insert(insert_pos(e, key), (key, v)),
    }
}

/// Inserting into entries in key order keeps them in key order.
pub proof fn lemma_obj_insert_ordered(e: Seq<(Seq<char>, Json)>, key: Seq<char>, v: Json)
    requires
        keys_ordered(e),
    ensures
        keys_ordered(obj_insert(e, key, v)),
{
    let u = obj_insert(e, key, v);
    if exists|i: int| 0 <= i < e.len() && (#[trigger] e[i]).0 == key {
        let w = choose|i: int| 0 <= i < e.len() && (#[trigger] e[i]).0 == key;
        let i = first_index(e, key)->Some_0;
        if i != w {
            lemma_key_less_irreflexive(key);
        }
        assert(first_index(e, key) is Some) by {
            if first_index(e, key) is None {
                assert(e[w].0 == key);
            }
        }
        assert forall|a: int, b: int| 0 <= a < b < u.len() implies key_less((#[trigger] u[a]).0, (#[trigger] u[b]).0) by {
            assert(u[a].0 == e[a].0);
            assert(u[b].0 == e[b].0);
        }
    } else {
        let p = insert_pos(e, key);
        assert(first_index(e, key) is None);
        if exists|i: int| 0 <= i < e.len() && key_less(key, (#[trigger] e[i]).0) {
            let w = choose|i: int| 0 <= i < e.len() && key_less(key, (#[trigger] e[i]).0);
            let q = choose|i: int|
                0 <= i < e.len() && key_less(key, (#[trigger] e[i]).0) && forall|j: int|
                    0 <= j < i ==> !key_less(key, (#[trigger] e[j]).0);
            lemma_least_key_after(e, key, w);
            assert(0 <= q < e.len() && key_less(key, e[q].0));
        }
        assert(0 <= p <= e.len());
        assert forall|j: int| 0 <= j < p implies key_less((#[trigger] e[j]).0, key) by {
            assert(!key_less(key, e[j].0));
            assert(e[j].0 != key);
            lemma_key_less_total(e[j].0, key);
        }
        assert forall|j: int| p <= j < e.len() implies key_less(key, (#[trigger] e[j]).0) by {
            if j > p {
                lemma_key_less_transitive(key, e[p].0, e[j].0);
            }
        }
        assert forall|a: int, b: int| 0 <= a < b < u.len() implies key_less((#[trigger] u[a]).0, (#[trigger] u[b]).0) by {
            if b < p {
                assert(u[a] == e[a] && u[b] == e[b]);
            } else if b == p {
                assert(u[a] == e[a]);
            } else if a < p {
                assert(u[a] == e[a] && u[b] == e[b - 1]);
                lemma_key_less_transitive(e[a].0, key, e[b - 1].0);
            } else if a == p {
                assert(u[b] == e[b - 1]);
            } else {
                assert(u[a] == e[a - 1] && u[b] == e[b - 1]);
            }
        }
    }
}

/// Some least index at or below `w` whose key comes after `key`, which
/// makes the least such index exist.
pub proof fn lemma_least_key_after(e: Seq<(Seq<char>, Json)>, key: Seq<char>, w: int)
    requires
        0 <= w < e.len(),
        key_less(key, e[w].0),
    ensures
        exists|i: int|
            0 <= i < e.len() && key_less(key, (#[trigger] e[i]).0) && forall|j: int|
                0 <= j < i ==> !key_less(key, (#[trigger] e[j]).0),
    decreases w,
{
    if exists|j: int| 0 <= j < w && key_less(key, (#[trigger] e[j]).0) {
        let j = choose|j: int| 0 <= j < w && key_less(key, (#[trigger] e[j]).0);
        lemma_least_key_after(e, key, j);
    } else {
        assert(forall|j: int| 0 <= j < w ==> !key_less(key, (#[trigger] e[j]).0));
    }
}

/// `Map::insert` on object entries (see `obj_insert`).
pub fn entries_insert(e: &mut Vec<(String, JsonValue)>, key: String, v: JsonValue)
    ensures
        json_entries_view(final(e)@) == obj_insert(json_entries_view(old(e)@), key@, v@),
{
    let ghost ev = json_entries_view(e@);
    proof {
        lemma_json_entries_view(e@);
    }
    let mut pos: usize = e.len();
    let mut i: usize = 0;
    while i < e.len()
        invariant
            i <= e@.len(),
            ev == json_entries_view(e@),
            e@ == old(e)@,
            ev.len() == e@.len(),
            forall|j: int| 0 <= j < e@.len() ==> #[trigger] ev[j] == (e@[j].0@, json_view(e@[j].1)),
            forall|j: int| 0 <= j < i ==> (#[trigger] ev[j]).0 != key@,
            pos == e@.len() || pos < i,
            pos < e@.len() ==> key_less(key@, ev[pos as int].0),
            forall|j: int| 0 <= j < i && j < pos ==> !key_less(key@, (#[trigger] ev[j]).0),
        decreases e@.len() - i,
    {
        if e[i].0 == key {
            proof {
                lemma_first_index(ev, key@, i as int);
            }
            e.set(i, (key, v));
            proof {
                lemma_json_entries_view(e@);
                assert(json_entries_view(e@) =~= ev.update(i as int, (key@, v@)));
            }
            return;
        }
        if pos == e.len() && key_less_exec(key.as_str(), e[i].0.as_str()) {
            pos = i;
        }
        i = i + 1;
    }
    proof {
        lemma_insert_pos(ev, key@, pos as int);
        if exists|j: int| 0 <= j < ev.len() && (#[trigger] ev[j]).0 == key@ {
            let j = choose|j: int| 0 <= j < ev.len() && (#[trigger] ev[j]).0 == key@;
            assert(ev[j].0 != key@);
        }
    }
    let ghost old_e = e@;
    e.insert(pos, (key, v));
    proof {
        lemma_json_entries_view(e@);
        assert(json_entries_view(e@) =~= ev.insert(pos as int, (key@, v@)));
    }
}

} // verus!
