//! A JSON value as the library reads it: request payloads, document and
//! segment metadata, and the response bodies it builds.
//!
//! Objects keep their entries ordered by key with no key twice (the order of
//! a `BTreeMap`), so two objects are equal exactly when they hold the same
//! keys with equal values. Numbers keep the three kinds JSON parsers tell
//! apart: a non-negative integer, a negative integer, and any other number,
//! held by the bit pattern of its `f64` value (with `-0.0` stored as `0.0`).

use vstd::prelude::*;

use crate::text::{copy_str, str_eq};

verus! {

broadcast use vstd::seq_lib::group_seq_properties;

/// A JSON value.
pub enum Json {
    Null,
    Bool(bool),
    PosInt(u64),
    NegInt(i64),
    Float(u64),
    Str(String),
    Array(Vec<Json>),
    Object(JsonMap),
}

/// A JSON object: entries ordered by key, each key once.
pub struct JsonMap {
    entries: Vec<(String, Json)>,
}

/// The mathematical value of a JSON value.
pub enum JsonV {
    Null,
    Bool(bool),
    PosInt(u64),
    NegInt(i64),
    Float(u64),
    Str(Seq<char>),
    Array(Seq<JsonV>),
    Object(Seq<(Seq<char>, JsonV)>),
}

/// The value a `Json` denotes.
pub open spec fn jv(j: Json) -> JsonV
    decreases j, 0nat,
{
    match j {
        Json::Null => JsonV::Null,
        Json::Bool(b) => JsonV::Bool(b),
        Json::PosInt(n) => JsonV::PosInt(n),
        Json::NegInt(n) => JsonV::NegInt(n),
        Json::Float(n) => JsonV::Float(n),
        Json::Str(s) => JsonV::Str(s@),
        Json::Array(v) => JsonV::Array(seq_jv(v@)),
        Json::Object(m) => JsonV::Object(m.entries_v()),
    }
}

/// The values of a sequence of JSON values.
pub open spec fn seq_jv(s: Seq<Json>) -> Seq<JsonV>
    decreases s, s.len(),
{
    if s.len() == 0 {
        Seq::empty()
    } else {
        seq_jv(s.drop_last()).push(jv(s.last()))
    }
}

/// The entries of an object, as values.
pub open spec fn obj_jv(s: Seq<(String, Json)>) -> Seq<(Seq<char>, JsonV)>
    decreases s, s.len(),
{
    if s.len() == 0 {
        Seq::empty()
    } else {
        obj_jv(s.drop_last()).push((s.last().0@, jv(s.last().1)))
    }
}

pub proof fn lemma_seq_jv(s: Seq<Json>)
    ensures
        seq_jv(s).len() == s.len(),
        forall|i: int| 0 <= i < s.len() ==> #[trigger] seq_jv(s)[i] == jv(s[i]),
    decreases s.len(),
{
    if s.len() > 0 {
        lemma_seq_jv(s.drop_last());
    }
}

pub proof fn lemma_obj_jv(s: Seq<(String, Json)>)
    ensures
        obj_jv(s).len() == s.len(),
        forall|i: int|
            0 <= i < s.len() ==> #[trigger] obj_jv(s)[i] == (s[i].0@, jv(s[i].1)),
    decreases s.len(),
{
    if s.len() > 0 {
        lemma_obj_jv(s.drop_last());
    }
}

/// Whether two `f64` bit patterns are the same number: the same bits, or
/// both a zero (`0.0` and `-0.0` are equal numbers).
pub open spec fn float_same(x: u64, y: u64) -> bool {
    ||| x == y
    ||| (x == 0 || x == 0x8000_0000_0000_0000) && (y == 0 || y == 0x8000_0000_0000_0000)
}

/// Equality of JSON values (`Value == Value`): the same shape with equal
/// leaves, numbers of the same kind and value, where floats compare as
/// `f64` numbers.
pub open spec fn json_same(a: JsonV, b: JsonV) -> bool
    decreases a,
{
    match a {
        JsonV::Float(x) => b matches JsonV::Float(y) && float_same(x, y),
        JsonV::Array(xs) => b matches JsonV::Array(ys) && xs.len() == ys.len() && forall|i: int|
            0 <= i < xs.len() ==> json_same(#[trigger] xs[i], ys[i]),
        JsonV::Object(xs) => b matches JsonV::Object(ys) && xs.len() == ys.len() && forall|i: int|
            0 <= i < xs.len() ==> (#[trigger] xs[i]).0 == ys[i].0 && json_same(xs[i].1, ys[i].1),
        _ => a == b,
    }
}

/// Lexicographic order of character sequences (the order of `String`).
pub open spec fn str_lt(a: Seq<char>, b: Seq<char>) -> bool
    decreases a.len(),
{
    if a.len() == 0 {
        b.len() > 0
    } else if b.len() == 0 {
        false
    } else if a[0] != b[0] {
        (a[0] as int) < (b[0] as int)
    } else {
        str_lt(a.drop_first(), b.drop_first())
    }
}

proof fn lemma_str_lt_trans(a: Seq<char>, b: Seq<char>, c: Seq<char>)
    requires
        str_lt(a, b),
        str_lt(b, c),
    ensures
        str_lt(a, c),
    decreases a.len(),
{
    if a.len() > 0 && b.len() > 0 && c.len() > 0 && a[0] == b[0] && b[0] == c[0] {
        lemma_str_lt_trans(a.drop_first(), b.drop_first(), c.drop_first());
    }
}

proof fn lemma_str_lt_total(a: Seq<char>, b: Seq<char>)
    ensures
        a == b || str_lt(a, b) || str_lt(b, a),
        !(str_lt(a, b) && str_lt(b, a)),
        !str_lt(a, a),
    decreases a.len(),
{
    if a.len() > 0 && b.len() > 0 {
        lemma_str_lt_total(a.drop_first(), b.drop_first());
        if a[0] == b[0] && a.drop_first() == b.drop_first() {
            assert(a =~= seq![a[0]] + a.drop_first());
            assert(b =~= seq![b[0]] + b.drop_first());
        }
    } else if a.len() > 0 {
        lemma_str_lt_total(a.drop_first(), a.drop_first());
    } else if b.len() > 0 {
    } else {
        assert(a =~= b);
    }
}

/// Compares two strings in `String` order.
fn compare_str(a: &str, b: &str) -> (r: i8)
    ensures
        r < 0 <==> str_lt(a@, b@),
        r == 0 <==> a@ == b@,
        r > 0 <==> str_lt(b@, a@),
{
    let x = crate::text::chars_of(a);
    let y = crate::text::chars_of(b);
    let mut i: usize = 0;
    proof {
        lemma_str_lt_total(a@, b@);
    }
    while i < x.len() && i < y.len()
        invariant
            x@ == a@,
            y@ == b@,
            0 <= i <= x@.len(),
            i <= y@.len(),
            forall|k: int| 0 <= k < i ==> x@[k] == y@[k],
            str_lt(a@, b@) == str_lt(x@.skip(i as int), y@.skip(i as int)),
            str_lt(b@, a@) == str_lt(y@.skip(i as int), x@.skip(i as int)),
        decreases x@.len() - i,
    {
        if x[i] != y[i] {
            proof {
                lemma_str_lt_total(a@, b@);
            }
            if x[i] < y[i] {
                return -1;
            } else {
                return 1;
            }
        }
        assert(x@.skip(i as int).drop_first() =~= x@.skip(i + 1));
        assert(y@.skip(i as int).drop_first() =~= y@.skip(i + 1));
        i = i + 1;
    }
    if x.len() < y.len() {
        -1
    } else if y.len() < x.len() {
        1
    } else {
        assert(x@ =~= y@);
        0
    }
}

/// Keys strictly increase.
pub open spec fn keys_sorted(s: Seq<(Seq<char>, JsonV)>) -> bool {
    forall|i: int, j: int| 0 <= i < j < s.len() ==> str_lt(#[trigger] s[i].0, #[trigger] s[j].0)
}

/// The value stored under `key` in an object's entries.
pub open spec fn entry_of(s: Seq<(Seq<char>, JsonV)>, key: Seq<char>) -> Option<JsonV>
    decreases s.len(),
{
    if s.len() == 0 {
        None
    } else if s.last().0 == key {
        Some(s.last().1)
    } else {
        entry_of(s.drop_last(), key)
    }
}

/// The field `key` of a value (`Value::get` with a string index): the entry of
/// an object, `None` for any other value.
pub open spec fn jget(v: JsonV, key: Seq<char>) -> Option<JsonV> {
    match v {
        JsonV::Object(s) => entry_of(s, key),
        _ => None,
    }
}

/// The fields of an object's entries, as a map from key to value.
pub open spec fn entries_map(s: Seq<(Seq<char>, JsonV)>) -> Map<Seq<char>, JsonV> {
    Map::new(|k: Seq<char>| entry_of(s, k) is Some, |k: Seq<char>| entry_of(s, k)->Some_0)
}

/// The fields of a value: those of an object, none for any other value.
pub open spec fn fields(v: JsonV) -> Map<Seq<char>, JsonV> {
    match v {
        JsonV::Object(s) => entries_map(s),
        _ => Map::empty(),
    }
}

/// The object with exactly the fields `m` (entries ordered by key).
pub open spec fn obj(m: Map<Seq<char>, JsonV>) -> JsonV {
    JsonV::Object(choose|s: Seq<(Seq<char>, JsonV)>| keys_sorted(s) && entries_map(s) == m)
}

impl JsonMap {
    /// The entries, as values.
    pub closed spec fn entries_v(&self) -> Seq<(Seq<char>, JsonV)>
        decreases self, 0nat,
    {
        obj_jv(self.entries@)
    }

    /// Entries are ordered by key, each key once.
    pub closed spec fn wf(&self) -> bool {
        keys_sorted(obj_jv(self.entries@))
    }

    /// An empty object.
    pub fn new() -> (m: JsonMap)
        ensures
            m.wf(),
            m.entries_v() == Seq::<(Seq<char>, JsonV)>::empty(),
            keys_sorted(m.entries_v()),
            entries_map(m.entries_v()) == Map::<Seq<char>, JsonV>::empty(),
    {
        let m = JsonMap { entries: Vec::new() };
        assert(entries_map(m.entries_v()) =~= Map::<Seq<char>, JsonV>::empty());
        m
    }

    /// Number of entries.
    pub fn len(&self) -> (n: usize)
        ensures
            n == self.entries_v().len(),
    {
        proof {
            lemma_obj_jv(self.entries@);
        }
        self.entries.len()
    }

    /// The key of entry `i`.
    pub fn key_at(&self, i: usize) -> (k: &String)
        requires
            i < self.entries_v().len(),
        ensures
            k@ == self.entries_v()[i as int].0,
    {
        proof {
            lemma_obj_jv(self.entries@);
        }
        &self.entries[i].0
    }

    /// The value of entry `i`.
    pub fn value_at(&self, i: usize) -> (v: &Json)
        requires
            i < self.entries_v().len(),
        ensures
            jv(*v) == self.entries_v()[i as int].1,
    {
        proof {
            lemma_obj_jv(self.entries@);
        }
        &self.entries[i].1
    }

    /// The value stored under `key`.
    pub fn get(&self, key: &str) -> (r: Option<&Json>)
        ensures
            match r {
                Some(v) => entry_of(self.entries_v(), key@) == Some(jv(*v)),
                None => entry_of(self.entries_v(), key@) == None::<JsonV>,
            },
    {
        let ghost ev = obj_jv(self.entries@);
        proof {
            lemma_obj_jv(self.entries@);
        }
        let mut i = self.entries.len();
        while i > 0
            invariant
                ev == obj_jv(self.entries@),
                ev.len() == self.entries@.len(),
                forall|k: int|
                    0 <= k < ev.len() ==> #[trigger] ev[k] == (
                        self.entries@[k].0@,
                        jv(self.entries@[k].1),
                    ),
                0 <= i <= self.entries@.len(),
                entry_of(ev, key@) == entry_of(ev.take(i as int), key@),
            decreases i,
        {
            let ghost pre = ev.take(i as int);
            assert(pre.drop_last() =~= ev.take(i - 1));
            if str_eq(self.entries[i - 1].0.as_str(), key) {
                return Some(&self.entries[i - 1].1);
            }
            i = i - 1;
        }
        None
    }

    /// Insert (or replace) the entry for `key`, keeping keys ordered
    /// (`Map::insert`).
    pub fn insert(&mut self, key: String, value: Json)
        requires
            old(self).wf(),
        ensures
            final(self).wf(),
            forall|k: Seq<char>|
                #[trigger] entry_of(final(self).entries_v(), k) == if k == key@ {
                    Some(jv(value))
                } else {
                    entry_of(old(self).entries_v(), k)
                },
            keys_sorted(final(self).entries_v()),
            entries_map(final(self).entries_v()) == entries_map(old(self).entries_v()).insert(
                key@,
                jv(value),
            ),
    {
        self.insert_entry(key, value);
        proof {
            lemma_entries_map_insert(old(self).entries_v(), self.entries_v(), key@, jv(value));
        }
    }

    /// Insert (or replace) the field `key`, copying the key.
    pub fn set(&mut self, key: &str, value: Json)
        requires
            old(self).wf(),
        ensures
            final(self).wf(),
            entries_map(final(self).entries_v()) == entries_map(old(self).entries_v()).insert(
                key@,
                jv(value),
            ),
    {
        self.insert(copy_str(key), value);
    }

    /// The object these entries make.
    pub fn into_value(self) -> (j: Json)
        requires
            self.wf(),
        ensures
            jv(j) == obj(entries_map(self.entries_v())),
    {
        proof {
            lemma_obj_of(self.entries_v());
        }
        Json::Object(self)
    }

    fn insert_entry(&mut self, key: String, value: Json)
        requires
            old(self).wf(),
        ensures
            final(self).wf(),
            forall|k: Seq<char>|
                #[trigger] entry_of(final(self).entries_v(), k) == if k == key@ {
                    Some(jv(value))
                } else {
                    entry_of(old(self).entries_v(), k)
                },
            keys_sorted(final(self).entries_v()),
    {
        proof {
            lemma_obj_jv(self.entries@);
        }
        let ghost old_ev = obj_jv(self.entries@);
        let ghost vv = jv(value);
        let mut i: usize = 0;
        let mut found = false;
        let mut stop = false;
        while !stop && i < self.entries.len()
            invariant
                self.entries@ == old(self).entries@,
                old_ev == obj_jv(self.entries@),
                old_ev.len() == self.entries@.len(),
                forall|k: int|
                    0 <= k < old_ev.len() ==> #[trigger] old_ev[k] == (
                        self.entries@[k].0@,
                        jv(self.entries@[k].1),
                    ),
                keys_sorted(old_ev),
                0 <= i <= self.entries@.len(),
                forall|k: int| 0 <= k < i ==> str_lt(#[trigger] old_ev[k].0, key@),
                stop ==> i < old_ev.len() && !str_lt(old_ev[i as int].0, key@),
                found ==> stop && old_ev[i as int].0 == key@,
                stop && !found ==> str_lt(key@, old_ev[i as int].0),
            decreases self.entries@.len() - i, if stop { 0int } else { 1int },
        {
            let c = compare_str(self.entries[i].0.as_str(), key.as_str());
            if c >= 0 {
                stop = true;
                found = c == 0;
            } else {
                i = i + 1;
            }
        }
        if found {
            let k0 = self.entries[i].0.clone();
            self.entries.set(i, (k0, value));
            proof {
                lemma_obj_jv(self.entries@);
                let nev = obj_jv(self.entries@);
                assert(nev =~= old_ev.update(i as int, (key@, vv)));
                assert forall|k: Seq<char>| #[trigger]
                    entry_of(nev, k) == if k == key@ {
                        Some(vv)
                    } else {
                        entry_of(old_ev, k)
                    } by {
                    lemma_entry_of_update(old_ev, i as int, vv, k);
                }
            }
        } else {
            self.entries.insert(i, (key, value));
            proof {
                lemma_obj_jv(self.entries@);
                let nev = obj_jv(self.entries@);
                assert(nev =~= old_ev.insert(i as int, (key@, vv)));
                lemma_insert_sorted(old_ev, i as int, key@, vv);
                assert forall|k: Seq<char>| #[trigger]
                    entry_of(nev, k) == if k == key@ {
                        Some(vv)
                    } else {
                        entry_of(old_ev, k)
                    } by {
                    lemma_insert_entry(old_ev, i as int, key@, vv, k);
                }
            }
        }
    }
}

/// The string a value holds (`Value::as_str`).
pub open spec fn jstr(v: JsonV) -> Option<Seq<char>> {
    match v {
        JsonV::Str(s) => Some(s),
        _ => None,
    }
}

/// The non-negative integer a value holds (`Value::as_u64`).
pub open spec fn ju64(v: JsonV) -> Option<u64> {
    match v {
        JsonV::PosInt(n) => Some(n),
        _ => None,
    }
}

/// The boolean a value holds (`Value::as_bool`).
pub open spec fn jbool(v: JsonV) -> Option<bool> {
    match v {
        JsonV::Bool(b) => Some(b),
        _ => None,
    }
}

/// The elements of an array value (`Value::as_array`).
pub open spec fn jarr(v: JsonV) -> Option<Seq<JsonV>> {
    match v {
        JsonV::Array(a) => Some(a),
        _ => None,
    }
}

/// The field `key` of an optional value (`Option<&Value>::and_then(get)`).
pub open spec fn oget(v: Option<JsonV>, key: Seq<char>) -> Option<JsonV> {
    match v {
        Some(x) => jget(x, key),
        None => None,
    }
}

impl Json {
    /// The field `key` of this value: the entry of an object, `None` otherwise.
    pub fn get(&self, key: &str) -> (r: Option<&Json>)
        ensures
            match r {
                Some(v) => jget(jv(*self), key@) == Some(jv(*v)),
                None => jget(jv(*self), key@) == None::<JsonV>,
            },
    {
        match self {
            Json::Object(m) => m.get(key),
            _ => None,
        }
    }

    /// The string this value holds.
    pub fn as_str(&self) -> (r: Option<&String>)
        ensures
            match r {
                Some(s) => jstr(jv(*self)) == Some(s@),
                None => jstr(jv(*self)) == None::<Seq<char>>,
            },
    {
        match self {
            Json::Str(s) => Some(s),
            _ => None,
        }
    }

    /// The non-negative integer this value holds.
    pub fn as_u64(&self) -> (r: Option<u64>)
        ensures
            r == ju64(jv(*self)),
    {
        match self {
            Json::PosInt(n) => Some(*n),
            _ => None,
        }
    }

    /// The boolean this value holds.
    pub fn as_bool(&self) -> (r: Option<bool>)
        ensures
            r == jbool(jv(*self)),
    {
        match self {
            Json::Bool(b) => Some(*b),
            _ => None,
        }
    }

    /// The elements of this value, when it is an array.
    pub fn as_array(&self) -> (r: Option<&Vec<Json>>)
        ensures
            match r {
                Some(a) => jarr(jv(*self)) == Some(seq_jv(a@)),
                None => jarr(jv(*self)) == None::<Seq<JsonV>>,
            },
    {
        match self {
            Json::Array(a) => Some(a),
            _ => None,
        }
    }

    /// Whether this value is an object.
    pub fn is_object(&self) -> (r: bool)
        ensures
            r == (jv(*self) is Object),
    {
        match self {
            Json::Object(_) => true,
            _ => false,
        }
    }

    /// A copy of this value.
    pub fn deep_copy(&self) -> (r: Json)
        ensures
            jv(r) == jv(*self),
        decreases self,
    {
        match self {
            Json::Null => Json::Null,
            Json::Bool(b) => Json::Bool(*b),
            Json::PosInt(n) => Json::PosInt(*n),
            Json::NegInt(n) => Json::NegInt(*n),
            Json::Float(n) => Json::Float(*n),
            Json::Str(s) => Json::Str(copy_str(s.as_str())),
            Json::Array(a) => {
                let mut out: Vec<Json> = Vec::new();
                let mut i: usize = 0;
                proof {
                    lemma_seq_jv(a@);
                }
                while i < a.len()
                    invariant
                        *self == Json::Array(*a),
                        0 <= i <= a@.len(),
                        out@.len() == i,
                        forall|k: int| 0 <= k < i ==> jv(#[trigger] out@[k]) == jv(a@[k]),
                    decreases a@.len() - i,
                {
                    proof {
                        assert(decreases_to!(*self => self->Array_0));
                        assert(decreases_to!(*a => a@));
                        assert(decreases_to!(a@ => a@[i as int]));
                    }
                    let c = a[i].deep_copy();
                    out.push(c);
                    i = i + 1;
                }
                proof {
                    lemma_seq_jv(a@);
                    lemma_seq_jv(out@);
                    assert(seq_jv(out@) =~= seq_jv(a@));
                }
                Json::Array(out)
            },
            Json::Object(m) => Json::Object(m.deep_copy()),
        }
    }
}

impl JsonMap {
    /// A copy of this object.
    pub fn deep_copy(&self) -> (r: JsonMap)
        ensures
            r.entries_v() == self.entries_v(),
            self.wf() ==> r.wf(),
        decreases self,
    {
        let mut out: Vec<(String, Json)> = Vec::new();
        let mut i: usize = 0;
        while i < self.entries.len()
            invariant
                0 <= i <= self.entries@.len(),
                out@.len() == i,
                forall|k: int|
                    0 <= k < i ==> (#[trigger] out@[k]).0@ == self.entries@[k].0@ && jv(out@[k].1)
                        == jv(self.entries@[k].1),
            decreases self.entries@.len() - i,
        {
            let k = copy_str(self.entries[i].0.as_str());
            let v = self.entries[i].1.deep_copy();
            out.push((k, v));
            i = i + 1;
        }
        proof {
            lemma_obj_jv(out@);
            lemma_obj_jv(self.entries@);
            assert(obj_jv(out@) =~= obj_jv(self.entries@));
        }
        JsonMap { entries: out }
    }
}

/// Whether two values are equal (`Value == Value`).
pub fn json_eq(a: &Json, b: &Json) -> (r: bool)
    ensures
        r == json_same(jv(*a), jv(*b)),
    decreases a,
{
    match (a, b) {
        (Json::Null, Json::Null) => true,
        (Json::Bool(x), Json::Bool(y)) => *x == *y,
        (Json::PosInt(x), Json::PosInt(y)) => *x == *y,
        (Json::NegInt(x), Json::NegInt(y)) => *x == *y,
        (Json::Float(x), Json::Float(y)) => {
            let zx = *x == 0 || *x == 0x8000_0000_0000_0000;
            let zy = *y == 0 || *y == 0x8000_0000_0000_0000;
            *x == *y || (zx && zy)
        },
        (Json::Str(x), Json::Str(y)) => str_eq(x.as_str(), y.as_str()),
        (Json::Array(x), Json::Array(y)) => {
            proof {
                lemma_seq_jv(x@);
                lemma_seq_jv(y@);
            }
            if x.len() != y.len() {
                return false;
            }
            let mut i: usize = 0;
            while i < x.len()
                invariant
                    *a == Json::Array(*x),
                    *b == Json::Array(*y),
                    x@.len() == y@.len(),
                    0 <= i <= x@.len(),
                    forall|k: int| 0 <= k < i ==> json_same(jv(#[trigger] x@[k]), jv(y@[k])),
                decreases x@.len() - i,
            {
                proof {
                    assert(decreases_to!(*a => a->Array_0));
                    assert(decreases_to!(*x => x@));
                    assert(decreases_to!(x@ => x@[i as int]));
                }
                if !json_eq(&x[i], &y[i]) {
                    proof {
                        lemma_seq_jv(x@);
                        lemma_seq_jv(y@);
                        assert(!json_same(seq_jv(x@)[i as int], seq_jv(y@)[i as int]));
                    }
                    return false;
                }
                i = i + 1;
            }
            proof {
                lemma_seq_jv(x@);
                lemma_seq_jv(y@);
                assert forall|k: int| 0 <= k < seq_jv(x@).len() implies json_same(
                    #[trigger] seq_jv(x@)[k],
                    seq_jv(y@)[k],
                ) by {
                    assert(json_same(jv(x@[k]), jv(y@[k])));
                }
            }
            true
        },
        (Json::Object(x), Json::Object(y)) => {
            proof {
                assert(decreases_to!(*a => a->Object_0));
            }
            x.same_as(y)
        },
        _ => false,
    }
}

impl JsonMap {
    /// Whether two objects hold the same entries (keys equal, values equal
    /// as JSON values).
    pub fn same_as(&self, other: &JsonMap) -> (r: bool)
        ensures
            r == json_same(JsonV::Object(self.entries_v()), JsonV::Object(other.entries_v())),
        decreases self,
    {
        let x = &self.entries;
        let y = &other.entries;
        proof {
            lemma_obj_jv(x@);
            lemma_obj_jv(y@);
        }
        if x.len() != y.len() {
            return false;
        }
        let mut i: usize = 0;
        while i < x.len()
            invariant
                x == &self.entries,
                y == &other.entries,
                x@.len() == y@.len(),
                0 <= i <= x@.len(),
                forall|k: int|
                    0 <= k < i ==> (#[trigger] x@[k]).0@ == y@[k].0@ && json_same(
                        jv(x@[k].1),
                        jv(y@[k].1),
                    ),
            decreases x@.len() - i,
        {
            proof {
                assert(decreases_to!(*self => self.entries));
                assert(decreases_to!(self.entries => self.entries@));
                assert(decreases_to!(self.entries@ => self.entries@[i as int]));
                assert(decreases_to!(self.entries@[i as int] => self.entries@[i as int].1));
            }
            if !str_eq(x[i].0.as_str(), y[i].0.as_str()) || !json_eq(&x[i].1, &y[i].1) {
                proof {
                    lemma_obj_jv(x@);
                    lemma_obj_jv(y@);
                    assert(!(obj_jv(x@)[i as int].0 == obj_jv(y@)[i as int].0 && json_same(
                        obj_jv(x@)[i as int].1,
                        obj_jv(y@)[i as int].1,
                    )));
                }
                return false;
            }
            i = i + 1;
        }
        proof {
            lemma_obj_jv(x@);
            lemma_obj_jv(y@);
            assert forall|k: int| 0 <= k < obj_jv(x@).len() implies (#[trigger] obj_jv(x@)[k]).0
                == obj_jv(y@)[k].0 && json_same(obj_jv(x@)[k].1, obj_jv(y@)[k].1) by {
                assert(x@[k].0@ == y@[k].0@);
            }
        }
        true
    }
}

/// Keys of a sorted entry sequence are distinct.
proof fn lemma_sorted_distinct(s: Seq<(Seq<char>, JsonV)>, i: int, j: int)
    requires
        keys_sorted(s),
        0 <= i < s.len(),
        0 <= j < s.len(),
        i != j,
    ensures
        s[i].0 != s[j].0,
{
    if i < j {
        assert(str_lt(s[i].0, s[j].0));
    } else {
        assert(str_lt(s[j].0, s[i].0));
    }
    lemma_str_lt_total(s[i].0, s[j].0);
}

/// In sorted entries, the value under the key of entry `j` is entry `j`'s.
pub proof fn lemma_entry_of_at(s: Seq<(Seq<char>, JsonV)>, j: int)
    requires
        keys_sorted(s),
        0 <= j < s.len(),
    ensures
        entry_of(s, s[j].0) == Some(s[j].1),
    decreases s.len(),
{
    if j < s.len() - 1 {
        lemma_sorted_distinct(s, j, s.len() - 1);
        assert(keys_sorted(s.drop_last()));
        lemma_entry_of_at(s.drop_last(), j);
    }
}

/// A key no entry holds has no value.
pub proof fn lemma_entry_of_absent(s: Seq<(Seq<char>, JsonV)>, k: Seq<char>)
    requires
        forall|i: int| 0 <= i < s.len() ==> (#[trigger] s[i]).0 != k,
    ensures
        entry_of(s, k) == None::<JsonV>,
    decreases s.len(),
{
    if s.len() > 0 {
        lemma_entry_of_absent(s.drop_last(), k);
    }
}

/// The value under `k`, when some entry holds `k`, is that entry's.
pub proof fn lemma_entry_of_cases(s: Seq<(Seq<char>, JsonV)>, k: Seq<char>)
    requires
        keys_sorted(s),
    ensures
        (exists|j: int| 0 <= j < s.len() && s[j].0 == k) || entry_of(s, k) == None::<JsonV>,
        forall|j: int| 0 <= j < s.len() && #[trigger] s[j].0 == k ==> entry_of(s, k) == Some(s[j].1),
{
    assert forall|j: int| 0 <= j < s.len() && #[trigger] s[j].0 == k implies entry_of(s, k) == Some(
        s[j].1,
    ) by {
        lemma_entry_of_at(s, j);
    }
    if !(exists|j: int| 0 <= j < s.len() && s[j].0 == k) {
        lemma_entry_of_absent(s, k);
    }
}

proof fn lemma_entry_of_update(s: Seq<(Seq<char>, JsonV)>, i: int, v: JsonV, k: Seq<char>)
    requires
        keys_sorted(s),
        0 <= i < s.len(),
    ensures
        keys_sorted(s.update(i, (s[i].0, v))),
        entry_of(s.update(i, (s[i].0, v)), k) == if k == s[i].0 {
            Some(v)
        } else {
            entry_of(s, k)
        },
{
    let t = s.update(i, (s[i].0, v));
    assert(keys_sorted(t));
    lemma_entry_of_cases(s, k);
    lemma_entry_of_cases(t, k);
    if k == s[i].0 {
        assert(t[i].0 == k);
    } else {
        if exists|j: int| 0 <= j < s.len() && s[j].0 == k {
            let j = choose|j: int| 0 <= j < s.len() && s[j].0 == k;
            assert(t[j].0 == k);
        } else {
            assert forall|j: int| 0 <= j < t.len() implies (#[trigger] t[j]).0 != k by {
                if j != i {
                    assert(t[j] == s[j]);
                }
            }
            lemma_entry_of_absent(t, k);
        }
    }
}

proof fn lemma_insert_sorted(s: Seq<(Seq<char>, JsonV)>, i: int, key: Seq<char>, v: JsonV)
    requires
        keys_sorted(s),
        0 <= i <= s.len(),
        forall|k: int| 0 <= k < i ==> str_lt(#[trigger] s[k].0, key),
        i < s.len() ==> str_lt(key, s[i].0),
    ensures
        keys_sorted(s.insert(i, (key, v))),
{
    let t = s.insert(i, (key, v));
    assert forall|a: int, b: int| 0 <= a < b < t.len() implies str_lt(
        #[trigger] t[a].0,
        #[trigger] t[b].0,
    ) by {
        if a < i && b == i {
        } else if a < i && b > i {
            assert(t[b] == s[b - 1]);
            if i < s.len() {
                assert(str_lt(key, s[i].0));
                if b - 1 > i {
                    assert(str_lt(s[i].0, s[b - 1].0));
                    lemma_str_lt_trans(key, s[i].0, s[b - 1].0);
                }
                lemma_str_lt_trans(s[a].0, key, s[b - 1].0);
            }
        } else if a == i {
            assert(t[b] == s[b - 1]);
            if b - 1 > i {
                assert(str_lt(s[i].0, s[b - 1].0));
                lemma_str_lt_trans(key, s[i].0, s[b - 1].0);
            }
        } else if a > i {
            assert(t[a] == s[a - 1]);
            assert(t[b] == s[b - 1]);
        } else {
            assert(t[a] == s[a]);
            assert(t[b] == s[b]);
        }
    }
}

proof fn lemma_insert_entry(s: Seq<(Seq<char>, JsonV)>, i: int, key: Seq<char>, v: JsonV, k: Seq<char>)
    requires
        keys_sorted(s),
        keys_sorted(s.insert(i, (key, v))),
        0 <= i <= s.len(),
    ensures
        entry_of(s.insert(i, (key, v)), k) == if k == key {
            Some(v)
        } else {
            entry_of(s, k)
        },
{
    let t = s.insert(i, (key, v));
    lemma_entry_of_cases(s, k);
    lemma_entry_of_cases(t, k);
    assert(t[i].0 == key);
    if k != key {
        if exists|j: int| 0 <= j < s.len() && s[j].0 == k {
            let j = choose|j: int| 0 <= j < s.len() && s[j].0 == k;
            if j < i {
                assert(t[j] == s[j]);
            } else {
                assert(t[j + 1] == s[j]);
            }
        } else {
            assert forall|j: int| 0 <= j < t.len() implies (#[trigger] t[j]).0 != k by {
                if j < i {
                    assert(t[j] == s[j]);
                } else if j > i {
                    assert(t[j] == s[j - 1]);
                }
            }
            lemma_entry_of_absent(t, k);
        }
    }
}

proof fn lemma_entries_map_insert(
    old_s: Seq<(Seq<char>, JsonV)>,
    new_s: Seq<(Seq<char>, JsonV)>,
    key: Seq<char>,
    v: JsonV,
)
    requires
        forall|k: Seq<char>|
            #[trigger] entry_of(new_s, k) == if k == key {
                Some(v)
            } else {
                entry_of(old_s, k)
            },
    ensures
        entries_map(new_s) == entries_map(old_s).insert(key, v),
{
    assert forall|k: Seq<char>| #[trigger] entries_map(new_s).contains_key(k)
        == entries_map(old_s).insert(key, v).contains_key(k) by {
        assert(entry_of(new_s, k) == entry_of(new_s, k));
    }
    assert(entries_map(new_s) =~= entries_map(old_s).insert(key, v));
}

/// The keys of sorted entries that precede the last one are below it.
proof fn lemma_last_key_absent(s: Seq<(Seq<char>, JsonV)>)
    requires
        keys_sorted(s),
        s.len() > 0,
    ensures
        entry_of(s.drop_last(), s.last().0) == None::<JsonV>,
{
    let t = s.drop_last();
    assert forall|i: int| 0 <= i < t.len() implies (#[trigger] t[i]).0 != s.last().0 by {
        lemma_sorted_distinct(s, i, s.len() - 1);
    }
    lemma_entry_of_absent(t, s.last().0);
}

/// Two objects with the same fields are the same object: entries ordered by
/// key, each key once, are determined by the values they hold under each key.
pub proof fn lemma_object_determined(a: Seq<(Seq<char>, JsonV)>, b: Seq<(Seq<char>, JsonV)>)
    requires
        keys_sorted(a),
        keys_sorted(b),
        entries_map(a) == entries_map(b),
    ensures
        a == b,
    decreases a.len() + b.len(),
{
    if a.len() == 0 && b.len() == 0 {
        assert(a =~= b);
    } else if a.len() == 0 {
        lemma_entry_of_at(b, b.len() - 1);
        assert(entries_map(b).contains_key(b.last().0));
    } else if b.len() == 0 {
        lemma_entry_of_at(a, a.len() - 1);
        assert(entries_map(a).contains_key(a.last().0));
    } else {
        let ka = a.last().0;
        let kb = b.last().0;
        assert(entry_of(a, ka) == Some(a.last().1));
        assert(entry_of(b, kb) == Some(b.last().1));
        assert(entries_map(a).contains_key(ka));
        assert(entries_map(b).contains_key(kb));
        lemma_entry_of_cases(b, ka);
        lemma_entry_of_cases(a, kb);
        assert(ka == kb) by {
            if ka != kb {
                assert(entry_of(b, ka) is Some);
                assert(entry_of(a, kb) is Some);
                let j = choose|j: int| 0 <= j < b.len() && b[j].0 == ka;
                let i = choose|i: int| 0 <= i < a.len() && a[i].0 == kb;
                assert(j != b.len() - 1);
                assert(i != a.len() - 1);
                assert(str_lt(b[j].0, b[b.len() - 1].0));
                assert(str_lt(a[i].0, a[a.len() - 1].0));
                lemma_str_lt_total(ka, kb);
            }
        }
        assert(entries_map(a)[ka] == a.last().1);
        assert(entries_map(b)[kb] == b.last().1);
        assert(a.last() == b.last());
        let a2 = a.drop_last();
        let b2 = b.drop_last();
        lemma_last_key_absent(a);
        lemma_last_key_absent(b);
        assert forall|k: Seq<char>| #[trigger] entry_of(a2, k) == entry_of(b2, k) by {
            if k != ka {
                assert(entry_of(a, k) == entry_of(a2, k));
                assert(entry_of(b, k) == entry_of(b2, k));
                assert(entries_map(a).contains_key(k) == entries_map(b).contains_key(k));
                if entries_map(a).contains_key(k) {
                    assert(entries_map(a)[k] == entries_map(b)[k]);
                    assert(entry_of(a, k) == Some(entries_map(a)[k]));
                    assert(entry_of(b, k) == Some(entries_map(b)[k]));
                } else {
                    assert(entry_of(a, k) is None);
                    assert(entry_of(b, k) is None);
                }
            } else {
                assert(entry_of(a2, k) == None::<JsonV>);
                assert(entry_of(b2, k) == None::<JsonV>);
            }
        }
        assert(entries_map(a2) =~= entries_map(b2));
        assert(keys_sorted(a2));
        assert(keys_sorted(b2));
        lemma_object_determined(a2, b2);
        assert(a =~= a2.push(a.last()));
        assert(b =~= b2.push(b.last()));
    }
}

/// Sorted entries are the object of their fields.
pub proof fn lemma_obj_of(s: Seq<(Seq<char>, JsonV)>)
    requires
        keys_sorted(s),
    ensures
        JsonV::Object(s) == obj(entries_map(s)),
{
    let m = entries_map(s);
    assert(keys_sorted(s) && entries_map(s) == m);
    let t = choose|t: Seq<(Seq<char>, JsonV)>| keys_sorted(t) && entries_map(t) == m;
    lemma_object_determined(s, t);
}

/// The values of a sequence with one more element.
pub proof fn lemma_seq_jv_push(s: Seq<Json>, x: Json)
    ensures
        seq_jv(s.push(x)) == seq_jv(s).push(jv(x)),
{
    assert(s.push(x).drop_last() =~= s);
}

} // verus!
