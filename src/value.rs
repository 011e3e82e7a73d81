//! The value tree produced by the parser, and its mathematical model.
use vstd::prelude::*;

verus! {

/// The mathematical model of a JSON value.
///
/// A number is kept as the literal text it was written with; an object is
/// a mapping from keys to values, so the order of its entries does not
/// matter.
pub enum Json {
    Number(Seq<char>),
    Bool(bool),
    Str(Seq<char>),
    Array(Seq<Json>),
    Object(Map<Seq<char>, Json>),
    Null,
}

/// A parsed JSON value.
///
/// Numbers hold their literal text, which is always a valid decimal
/// floating-point literal; converting it to a float is left to the caller.
#[derive(Debug)]
pub enum JsonValue {
    Number(String),
    Bool(bool),
    String(String),
    Array(Vec<JsonValue>),
    Object(JsonObject),
    Null,
}

/// A mapping from keys to values. Keys are unique; inserting an existing
/// key replaces its value.
#[derive(Debug)]
pub struct JsonObject {
    pub entries: Vec<(String, JsonValue)>,
}

pub open spec fn json_of(v: JsonValue) -> Json
    decreases v,
{
    match v {
        JsonValue::Number(s) => Json::Number(s@),
        JsonValue::Bool(b) => Json::Bool(b),
        JsonValue::String(s) => Json::Str(s@),
        JsonValue::Array(items) => Json::Array(jsons_of(items@)),
        JsonValue::Object(o) => Json::Object(entries_map(o.entries@)),
        JsonValue::Null => Json::Null,
    }
}

pub open spec fn jsons_of(vs: Seq<JsonValue>) -> Seq<Json>
    decreases vs,
{
    if vs.len() == 0 {
        Seq::empty()
    } else {
        jsons_of(vs.drop_last()).push(json_of(vs.last()))
    }
}

/// The mapping that a list of entries denotes: each key is bound to the
/// value of its last entry.
pub open spec fn entries_map(es: Seq<(String, JsonValue)>) -> Map<Seq<char>, Json>
    decreases es,
{
    if es.len() == 0 {
        Map::empty()
    } else {
        entries_map(es.drop_last()).insert(es.last().0@, json_of(es.last().1))
    }
}

} // verus!

verus! {

impl View for JsonValue {
    type V = Json;

    open spec fn view(&self) -> Json {
        json_of(*self)
    }
}

} // verus!

verus! {

/// The keys of `entries_map(es)` are the keys of the entries, and a key is
/// bound to the value of the entry after which no entry has that key.
pub proof fn lemma_entries_map(es: Seq<(String, JsonValue)>)
    ensures
        forall|k: Seq<char>|
            entries_map(es).contains_key(k) <==> exists|i: int|
                0 <= i < es.len() && (#[trigger] es[i]).0@ == k,
        forall|i: int|
            0 <= i < es.len() && (forall|j: int| i < j < es.len() ==> (#[trigger] es[j]).0@ != es[i].0@)
                ==> entries_map(es)[(#[trigger] es[i]).0@] == json_of(es[i].1),
    decreases es.len(),
{
    if es.len() > 0 {
        let rest = es.drop_last();
        let n = es.len() - 1;
        lemma_entries_map(rest);
        assert forall|k: Seq<char>|
            entries_map(es).contains_key(k) <==> exists|i: int|
                0 <= i < es.len() && (#[trigger] es[i]).0@ == k by {
            if entries_map(es).contains_key(k) && k != es[n].0@ {
                let i = choose|i: int| 0 <= i < rest.len() && (#[trigger] rest[i]).0@ == k;
                assert(es[i] == rest[i]);
            }
            if exists|i: int| 0 <= i < es.len() && (#[trigger] es[i]).0@ == k {
                let i = choose|i: int| 0 <= i < es.len() && (#[trigger] es[i]).0@ == k;
                if i < n {
                    assert(rest[i] == es[i]);
                }
            }
        }
        assert forall|i: int|
            0 <= i < es.len() && (forall|j: int| i < j < es.len() ==> (#[trigger] es[j]).0@ != es[i].0@)
                implies entries_map(es)[(#[trigger] es[i]).0@] == json_of(es[i].1) by {
            if i < n {
                assert(es[n].0@ != es[i].0@);
                assert(rest[i] == es[i]);
                assert forall|j: int| i < j < rest.len() implies (#[trigger] rest[j]).0@ != rest[i].0@ by {
                    assert(rest[j] == es[j]);
                }
            }
        }
    }
}

/// Replacing the entry for an existing key of unique-keyed entries binds
/// that key to the new value and keeps the keys unique.
proof fn lemma_replace_entry(es: Seq<(String, JsonValue)>, i: int, key: String, value: JsonValue)
    requires
        keys_unique(es),
        0 <= i < es.len(),
        es[i].0@ == key@,
    ensures
        keys_unique(es.update(i, (key, value))),
        entries_map(es.update(i, (key, value))) == entries_map(es).insert(key@, value@),
{
    let es2 = es.update(i, (key, value));
    let k = key@;
    let v = value@;
    lemma_entries_map(es);
    lemma_entries_map(es2);
    assert forall|a: int, b: int| 0 <= a < b < es2.len() implies (#[trigger] es2[a]).0@
        != (#[trigger] es2[b]).0@ by {
        assert(es2[a].0@ == es[a].0@ && es2[b].0@ == es[b].0@);
    }
    assert forall|x: Seq<char>| #[trigger] entries_map(es2).contains_key(x)
        == entries_map(es).insert(k, v).contains_key(x) by {
        if exists|j: int| 0 <= j < es2.len() && (#[trigger] es2[j]).0@ == x {
            let j = choose|j: int| 0 <= j < es2.len() && (#[trigger] es2[j]).0@ == x;
            assert(es[j].0@ == x);
        }
        if exists|j: int| 0 <= j < es.len() && (#[trigger] es[j]).0@ == x {
            let j = choose|j: int| 0 <= j < es.len() && (#[trigger] es[j]).0@ == x;
            assert(es2[j].0@ == x);
        }
        if x == k {
            assert(es2[i].0@ == x);
        }
    }
    assert forall|x: Seq<char>| #[trigger] entries_map(es2).contains_key(x)
        implies entries_map(es2)[x] == entries_map(es).insert(k, v)[x] by {
        let j = choose|j: int| 0 <= j < es2.len() && (#[trigger] es2[j]).0@ == x;
        assert forall|m: int| j < m < es2.len() implies (#[trigger] es2[m]).0@ != es2[j].0@ by {}
        if j != i {
            assert(es2[j] == es[j]);
            assert forall|m: int| j < m < es.len() implies (#[trigger] es[m]).0@ != es[j].0@ by {
                assert(es2[m].0@ == es[m].0@);
            }
        }
    }
    assert(entries_map(es2) =~= entries_map(es).insert(k, v));
}

/// Whether no entry after index `i` has the key of entry `i`.
pub open spec fn is_last_of_key(es: Seq<(String, JsonValue)>, i: int) -> bool {
    forall|j: int| i < j < es.len() ==> (#[trigger] es[j]).0@ != es[i].0@
}

/// Every key of `entries_map(es)` has a last entry.
proof fn lemma_last_entry_exists(es: Seq<(String, JsonValue)>, k: Seq<char>)
    requires
        entries_map(es).contains_key(k),
    ensures
        exists|i: int| 0 <= i < es.len() && es[i].0@ == k && is_last_of_key(es, i),
    decreases es.len(),
{
    let n = es.len() - 1;
    if es[n].0@ == k {
        assert(es[n].0@ == k && is_last_of_key(es, n));
    } else {
        let rest = es.drop_last();
        lemma_last_entry_exists(rest, k);
        let i = choose|i: int| 0 <= i < rest.len() && rest[i].0@ == k && is_last_of_key(rest, i);
        assert(es[i] == rest[i]);
        assert forall|j: int| i < j < es.len() implies (#[trigger] es[j]).0@ != es[i].0@ by {
            if j < n {
                assert(es[j] == rest[j]);
            }
        }
        assert(es[i].0@ == k && is_last_of_key(es, i));
    }
}

pub proof fn lemma_jsons_of(vs: Seq<JsonValue>)
    ensures
        jsons_of(vs).len() == vs.len(),
        forall|i: int| 0 <= i < vs.len() ==> #[trigger] jsons_of(vs)[i] == json_of(vs[i]),
    decreases vs.len(),
{
    if vs.len() > 0 {
        lemma_jsons_of(vs.drop_last());
    }
}

/// The index of the last entry with key `k`, if any.
fn last_index_of(es: &Vec<(String, JsonValue)>, k: &String) -> (r: Option<usize>)
    ensures
        match r {
            Some(i) => i < es@.len() && es@[i as int].0@ == k@ && is_last_of_key(es@, i as int),
            None => forall|m: int| 0 <= m < es@.len() ==> (#[trigger] es@[m]).0@ != k@,
        },
{
    let mut i: usize = es.len();
    while i > 0
        invariant
            i <= es.len(),
            forall|j: int| i <= j < es@.len() ==> (#[trigger] es@[j]).0@ != k@,
        decreases i,
    {
        if es[i - 1].0 == *k {
            return Some(i - 1);
        }
        i = i - 1;
    }
    None
}

/// Whether no two entries have the same key.
pub open spec fn keys_unique(es: Seq<(String, JsonValue)>) -> bool {
    forall|i: int, j: int| 0 <= i < j < es.len() ==> (#[trigger] es[i]).0@ != (#[trigger] es[j]).0@
}

impl JsonObject {
    /// The mapping that the entries denote.
    pub open spec fn model(&self) -> Map<Seq<char>, Json> {
        entries_map(self.entries@)
    }

    /// Whether no key occurs twice among the entries.
    pub open spec fn wf(&self) -> bool {
        keys_unique(self.entries@)
    }

    /// An object with no entries.
    pub fn new() -> (r: Self)
        ensures
            r.model() == Map::<Seq<char>, Json>::empty(),
            r.wf(),
    {
        JsonObject { entries: Vec::new() }
    }

    /// The number of entries; in a well-formed object, the number of keys.
    pub fn len(&self) -> (r: usize)
        ensures
            r == self.entries@.len(),
    {
        self.entries.len()
    }

    /// Binds `key` to `value`, replacing the value of an existing entry for
    /// `key` in place, or appending a new entry.
    pub fn insert(&mut self, key: String, value: JsonValue)
        requires
            old(self).wf(),
        ensures
            final(self).model() == old(self).model().insert(key@, value@),
            final(self).wf(),
    {
        let ghost es = self.entries@;
        let mut i: usize = 0;
        while i < self.entries.len()
            invariant
                self.entries@ == es,
                es == old(self).entries@,
                keys_unique(es),
                i <= self.entries.len(),
                forall|j: int| 0 <= j < i ==> (#[trigger] es[j]).0@ != key@,
            decreases self.entries.len() - i,
        {
            if self.entries[i].0 == key {
                let ghost iv = i as int;
                let ghost entry = (key, value);
                proof {
                    lemma_replace_entry(es, iv, entry.0, entry.1);
                }
                self.entries.set(i, (key, value));
                assert(self.entries@ == es.update(iv, entry));
                assert(entry.0@ == key@ && entry.1@ == value@);
                return;
            }
            i = i + 1;
        }
        self.entries.push((key, value));
        proof {
            assert(self.entries@.drop_last() =~= es);
        }
    }

    /// The value bound to `key`, if any.
    pub fn get(&self, key: &str) -> (r: Option<&JsonValue>)
        ensures
            match r {
                Some(v) => self.model().contains_key(key@) && self.model()[key@] == v@,
                None => !self.model().contains_key(key@),
            },
    {
        proof {
            lemma_entries_map(self.entries@);
        }
        let k = key.to_owned();
        let mut i: usize = self.entries.len();
        while i > 0
            invariant
                k@ == key@,
                i <= self.entries.len(),
                forall|j: int| i <= j < self.entries@.len() ==> (#[trigger] self.entries@[j]).0@ != key@,
            decreases i,
        {
            if self.entries[i - 1].0 == k {
                proof {
                    let es = self.entries@;
                    let f = i - 1;
                    lemma_entries_map(es);
                    assert forall|j: int| f < j < es.len() implies (#[trigger] es[j]).0@ != es[f].0@ by {}
                }
                return Some(&self.entries[i - 1].1);
            }
            i = i - 1;
        }
        None
    }
}

} // verus!

verus! {

impl Clone for JsonValue {
    fn clone(&self) -> (r: Self)
        ensures
            r@ == self@,
        decreases self,
    {
        match self {
            JsonValue::Number(s) => JsonValue::Number(s.clone()),
            JsonValue::Bool(b) => JsonValue::Bool(*b),
            JsonValue::String(s) => JsonValue::String(s.clone()),
            JsonValue::Array(items) => {
                let mut out: Vec<JsonValue> = Vec::new();
                let mut i: usize = 0;
                while i < items.len()
                    invariant
                        i <= items.len(),
                        *self == JsonValue::Array(*items),
                        jsons_of(out@) == jsons_of(items@.take(i as int)),
                    decreases items.len() - i,
                {
                    assert(decreases_to!(*self => (*self)->Array_0));
                    assert(decreases_to!(*items => items@));
                    assert(decreases_to!(items@ => items@[i as int]));
                    assert(decreases_to!(*self => items@[i as int]));
                    let c = items[i].clone();
                    let ghost before = out@;
                    out.push(c);
                    assert(out@.drop_last() =~= before);
                    assert(items@.take(i + 1).drop_last() =~= items@.take(i as int));
                    i = i + 1;
                }
                assert(items@.take(items.len() as int) =~= items@);
                JsonValue::Array(out)
            },
            JsonValue::Object(o) => {
                let mut out: Vec<(String, JsonValue)> = Vec::new();
                let mut i: usize = 0;
                while i < o.entries.len()
                    invariant
                        i <= o.entries.len(),
                        *self == JsonValue::Object(*o),
                        entries_map(out@) == entries_map(o.entries@.take(i as int)),
                    decreases o.entries.len() - i,
                {
                    assert(decreases_to!(*self => (*self)->Object_0));
                    assert(decreases_to!(*o => o.entries));
                    assert(decreases_to!(o.entries => o.entries@));
                    assert(decreases_to!(o.entries@ => o.entries@[i as int]));
                    assert(decreases_to!(o.entries@[i as int] => o.entries@[i as int].1));
                    assert(decreases_to!(*self => o.entries@[i as int].1));
                    let k = o.entries[i].0.clone();
                    let v = o.entries[i].1.clone();
                    let ghost before = out@;
                    out.push((k, v));
                    assert(out@.drop_last() =~= before);
                    assert(o.entries@.take(i + 1).drop_last() =~= o.entries@.take(i as int));
                    i = i + 1;
                }
                assert(o.entries@.take(o.entries.len() as int) =~= o.entries@);
                JsonValue::Object(JsonObject { entries: out })
            },
            JsonValue::Null => JsonValue::Null,
        }
    }
}

} // verus!

verus! {

impl PartialEq for JsonValue {
    /// Structural equality in which objects compare as mappings: the order
    /// of their entries does not matter.
    fn eq(&self, other: &JsonValue) -> (r: bool)
        decreases self,
    {
        match (self, other) {
            (JsonValue::Number(a), JsonValue::Number(b)) => *a == *b,
            (JsonValue::Bool(a), JsonValue::Bool(b)) => *a == *b,
            (JsonValue::String(a), JsonValue::String(b)) => *a == *b,
            (JsonValue::Null, JsonValue::Null) => true,
            (JsonValue::Array(a), JsonValue::Array(b)) => {
                proof {
                    lemma_jsons_of(a@);
                    lemma_jsons_of(b@);
                }
                if a.len() != b.len() {
                    return false;
                }
                let mut i: usize = 0;
                while i < a.len()
                    invariant
                        *self == JsonValue::Array(*a),
                        *other == JsonValue::Array(*b),
                        a@.len() == b@.len(),
                        i <= a.len(),
                        jsons_of(a@).len() == a@.len(),
                        jsons_of(b@).len() == b@.len(),
                        forall|x: int| 0 <= x < a@.len() ==> #[trigger] jsons_of(a@)[x] == json_of(a@[x]),
                        forall|x: int| 0 <= x < b@.len() ==> #[trigger] jsons_of(b@)[x] == json_of(b@[x]),
                        forall|x: int| 0 <= x < i ==> json_of(#[trigger] a@[x]) == json_of(b@[x]),
                    decreases a.len() - i,
                {
                    assert(decreases_to!(*self => (*self)->Array_0));
                    assert(decreases_to!(*a => a@));
                    assert(decreases_to!(a@ => a@[i as int]));
                    if !a[i].eq(&b[i]) {
                        assert(jsons_of(a@)[i as int] != jsons_of(b@)[i as int]);
                        return false;
                    }
                    i = i + 1;
                }
                assert(jsons_of(a@) =~= jsons_of(b@));
                true
            },
            (JsonValue::Object(a), JsonValue::Object(b)) => {
                assert(decreases_to!(*self => (*self)->Object_0));
                a.eq(b)
            },
            _ => false,
        }
    }
}

impl vstd::std_specs::cmp::PartialEqSpecImpl for JsonValue {
    open spec fn obeys_eq_spec() -> bool {
        true
    }

    open spec fn eq_spec(&self, other: &JsonValue) -> bool {
        self@ == other@
    }
}

} // verus!

verus! {

impl PartialEq for JsonObject {
    /// Equality of the mappings that the entries denote: the order of the
    /// entries does not matter.
    #[verifier::rlimit(50)]
    fn eq(&self, other: &JsonObject) -> (r: bool)
        decreases self,
    {
        let ae = &self.entries;
        let be = &other.entries;
        let ghost ma = entries_map(ae@);
        let ghost mb = entries_map(be@);
        proof {
            lemma_entries_map(ae@);
            lemma_entries_map(be@);
        }
        let mut i: usize = 0;
        while i < ae.len()
            invariant
                *ae == self.entries,
                *be == other.entries,
                ma == entries_map(ae@),
                mb == entries_map(be@),
                i <= ae.len(),
                forall|x: int| 0 <= x < i ==> mb.contains_key((#[trigger] ae@[x]).0@),
                forall|x: int| 0 <= x < i && is_last_of_key(ae@, x) ==> mb[(#[trigger] ae@[x]).0@] == json_of(ae@[x].1),
            decreases ae.len() - i,
        {
            let ghost k = ae@[i as int].0@;
            match last_index_of(be, &ae[i].0) {
                None => {
                    proof {
                        lemma_entries_map(ae@);
                        lemma_entries_map(be@);
                        assert(ma.contains_key(k));
                        assert(!mb.contains_key(k));
                    }
                    return false;
                },
                Some(j) => {
                    proof {
                        lemma_entries_map(be@);
                        assert(mb.contains_key(be@[j as int].0@));
                    }
                    if last_index_of(ae, &ae[i].0) == Some(i) {
                        assert(decreases_to!(*self => self.entries));
                        assert(decreases_to!(self.entries => self.entries@));
                        assert(decreases_to!(self.entries@ => self.entries@[i as int]));
                        assert(decreases_to!(self.entries@[i as int] => self.entries@[i as int].1));
                        if !ae[i].1.eq(&be[j].1) {
                            proof {
                                lemma_entries_map(ae@);
                            }
                            assert(ma[k] != mb[k]);
                            return false;
                        }
                    }
                },
            }
            i = i + 1;
        }
        let mut j: usize = 0;
        while j < be.len()
            invariant
                *ae == self.entries,
                *be == other.entries,
                ma == entries_map(ae@),
                mb == entries_map(be@),
                j <= be.len(),
                forall|k: Seq<char>|
                    ma.contains_key(k) <==> exists|x: int| 0 <= x < ae@.len() && (#[trigger] ae@[x]).0@ == k,
                forall|k: Seq<char>|
                    mb.contains_key(k) <==> exists|x: int| 0 <= x < be@.len() && (#[trigger] be@[x]).0@ == k,
                forall|y: int| 0 <= y < j ==> ma.contains_key((#[trigger] be@[y]).0@),
            decreases be.len() - j,
        {
            if last_index_of(ae, &be[j].0).is_none() {
                proof {
                    let k = be@[j as int].0@;
                    assert(mb.contains_key(k));
                    assert(!ma.contains_key(k));
                }
                return false;
            }
            j = j + 1;
        }
        proof {
            assert forall|k: Seq<char>| ma.contains_key(k) implies mb.contains_key(k) && mb[k] == ma[k] by {
                lemma_last_entry_exists(ae@, k);
                let x = choose|x: int| 0 <= x < ae@.len() && ae@[x].0@ == k && is_last_of_key(ae@, x);
                assert(mb.contains_key(ae@[x].0@));
            }
            assert forall|k: Seq<char>| mb.contains_key(k) implies ma.contains_key(k) by {
                let y = choose|y: int| 0 <= y < be@.len() && (#[trigger] be@[y]).0@ == k;
                assert(ma.contains_key(be@[y].0@));
            }
            assert(ma =~= mb);
        }
        true
    }
}

impl vstd::std_specs::cmp::PartialEqSpecImpl for JsonObject {
    open spec fn obeys_eq_spec() -> bool {
        true
    }

    open spec fn eq_spec(&self, other: &JsonObject) -> bool {
        self.model() == other.model()
    }
}

} // verus!
