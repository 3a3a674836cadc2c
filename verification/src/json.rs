use vstd::prelude::*;

verus! {

broadcast use vstd::std_specs::vec::axiom_vec_decreases_to_view;

/// A JSON number, held as serde_json holds one: a non-negative integer, a
/// negative integer, or a finite float (carried by its IEEE-754 bits).
/// An integer is read by its value, so `NegInt` holding a non-negative
/// value means the same number as `PosInt` holding it.
#[derive(Clone, Copy, Debug)]
pub enum JsonNumber {
    PosInt(u64),
    NegInt(i64),
    Float(u64),
}

impl JsonNumber {
    /// The number as a `u64`, when it is a non-negative integer.
    pub open spec fn spec_as_u64(self) -> Option<u64> {
        match self {
            JsonNumber::PosInt(n) => Some(n),
            JsonNumber::NegInt(i) => if i >= 0 {
                Some(i as u64)
            } else {
                None
            },
            JsonNumber::Float(_) => None,
        }
    }

    /// The number as a `u64`, when it is a non-negative integer.
    pub fn as_u64(&self) -> (r: Option<u64>)
        ensures
            r == self.spec_as_u64(),
    {
        match self {
            JsonNumber::PosInt(n) => Some(*n),
            JsonNumber::NegInt(i) => if *i >= 0 {
                Some(*i as u64)
            } else {
                None
            },
            JsonNumber::Float(_) => None,
        }
    }
}

/// The mathematical value of a JSON document: strings as character
/// sequences, arrays as sequences, objects as key/value sequences in their
/// stored order.
pub enum Json {
    Null,
    Bool(bool),
    Number(JsonNumber),
    Str(Seq<char>),
    Array(Seq<Json>),
    Object(Seq<(Seq<char>, Json)>),
}

/// A JSON document.
#[derive(Debug)]
pub enum JsonValue {
    Null,
    Bool(bool),
    Number(JsonNumber),
    String(String),
    Array(Vec<JsonValue>),
    Object(JsonMap),
}

/// A JSON object: keys in insertion order, no key twice.
#[derive(Debug)]
pub struct JsonMap {
    entries: Vec<(String, JsonValue)>,
}

/// The value of a JSON document.
pub open spec fn json_of(v: JsonValue) -> Json
    decreases v,
{
    match v {
        JsonValue::Null => Json::Null,
        JsonValue::Bool(b) => Json::Bool(b),
        JsonValue::Number(n) => Json::Number(n),
        JsonValue::String(s) => Json::Str(s@),
        JsonValue::Array(items) => Json::Array(jsons_of(items@)),
        JsonValue::Object(m) => Json::Object(m.model()),
    }
}

/// The values of a sequence of documents, in order.
pub open spec fn jsons_of(s: Seq<JsonValue>) -> Seq<Json>
    decreases s,
{
    if s.len() == 0 {
        Seq::empty()
    } else {
        jsons_of(s.drop_last()).push(json_of(s.last()))
    }
}

/// The values of a sequence of object entries, in order.
pub open spec fn entries_of(s: Seq<(String, JsonValue)>) -> Seq<(Seq<char>, Json)>
    decreases s,
{
    if s.len() == 0 {
        Seq::empty()
    } else {
        entries_of(s.drop_last()).push((s.last().0@, json_of(s.last().1)))
    }
}

impl JsonMap {
    /// The entries of the object, keys by their characters, in order.
    pub closed spec fn model(self) -> Seq<(Seq<char>, Json)>
        decreases self,
    {
        entries_of(self.entries@)
    }
}

impl View for JsonValue {
    type V = Json;

    open spec fn view(&self) -> Json {
        json_of(*self)
    }
}

impl View for JsonMap {
    type V = Seq<(Seq<char>, Json)>;

    open spec fn view(&self) -> Seq<(Seq<char>, Json)> {
        self.model()
    }
}

/// `jsons_of` keeps the length and maps each element.
pub proof fn lemma_jsons_of(s: Seq<JsonValue>)
    ensures
        jsons_of(s).len() == s.len(),
        forall|i: int| 0 <= i < s.len() ==> #[trigger] jsons_of(s)[i] == json_of(s[i]),
    decreases s.len(),
{
    if s.len() > 0 {
        lemma_jsons_of(s.drop_last());
    }
}

/// `entries_of` keeps the length and maps each entry.
pub proof fn lemma_entries_of(s: Seq<(String, JsonValue)>)
    ensures
        entries_of(s).len() == s.len(),
        forall|i: int|
            0 <= i < s.len() ==> #[trigger] entries_of(s)[i] == (s[i].0@, json_of(s[i].1)),
    decreases s.len(),
{
    if s.len() > 0 {
        lemma_entries_of(s.drop_last());
    }
}

/// Whether some entry has key `k`.
pub open spec fn has_key(es: Seq<(Seq<char>, Json)>, k: Seq<char>) -> bool {
    exists|i: int| 0 <= i < es.len() && #[trigger] es[i].0 == k
}

/// Whether no key occurs twice.
pub open spec fn keys_distinct(es: Seq<(Seq<char>, Json)>) -> bool {
    forall|i: int, j: int| 0 <= i < j < es.len() ==> #[trigger] es[i].0 != #[trigger] es[j].0
}

/// The value of the first entry with key `k`, if there is one.
pub open spec fn lookup(es: Seq<(Seq<char>, Json)>, k: Seq<char>) -> Option<Json>
    decreases es.len(),
{
    if es.len() == 0 {
        None
    } else {
        let before = lookup(es.drop_last(), k);
        if before is Some {
            before
        } else if es.last().0 == k {
            Some(es.last().1)
        } else {
            None
        }
    }
}

/// The position of the entry with key `k` (meaningful when there is one).
pub open spec fn key_index(es: Seq<(Seq<char>, Json)>, k: Seq<char>) -> int {
    choose|i: int| 0 <= i < es.len() && es[i].0 == k
}

/// Inserting into an object: an existing key keeps its place and takes the
/// new value; a new key goes at the end.
pub open spec fn map_insert(es: Seq<(Seq<char>, Json)>, k: Seq<char>, v: Json) -> Seq<
    (Seq<char>, Json),
> {
    if has_key(es, k) {
        es.update(key_index(es, k), (k, v))
    } else {
        es.push((k, v))
    }
}

/// What inserting into an object with distinct keys does: the key then
/// holds the new value, every other key holds what it held, keys stay
/// distinct, and the object grows by one entry exactly when the key is new.
pub proof fn lemma_map_insert(es: Seq<(Seq<char>, Json)>, k: Seq<char>, v: Json, k2: Seq<char>)
    requires
        keys_distinct(es),
    ensures
        lookup(map_insert(es, k, v), k) == Some(v),
        k2 != k ==> lookup(map_insert(es, k, v), k2) == lookup(es, k2),
        has_key(map_insert(es, k, v), k2) == (k2 == k || has_key(es, k2)),
        keys_distinct(map_insert(es, k, v)),
        map_insert(es, k, v).len() == es.len() + if has_key(es, k) {
            0int
        } else {
            1int
        },
{
    let out = map_insert(es, k, v);
    lemma_lookup(es, k);
    lemma_lookup(es, k2);
    lemma_lookup(out, k);
    lemma_lookup(out, k2);
    if has_key(es, k) {
        let c = key_index(es, k);
        assert(es[c].0 == k);
        assert forall|i: int, j: int| 0 <= i < j < out.len() implies #[trigger] out[i].0
            != #[trigger] out[j].0 by {
            assert(es[i].0 != es[j].0);
        }
        assert(out[c].0 == k);
        if lookup(out, k) != Some(v) {
            let i = choose|i: int|
                0 <= i < out.len() && out[i].0 == k && lookup(out, k) == Some(out[i].1) && forall|
                    j: int,
                | 0 <= j < i ==> out[j].0 != k;
            if i != c {
                if i < c {
                    assert(es[i].0 != es[c].0);
                } else {
                    assert(es[c].0 != es[i].0);
                }
            }
        }
        if k2 != k {
            if has_key(es, k2) {
                let i = choose|i: int| 0 <= i < es.len() && #[trigger] es[i].0 == k2;
                assert(out[i].0 == k2);
            }
            if has_key(out, k2) {
                let i = choose|i: int| 0 <= i < out.len() && #[trigger] out[i].0 == k2;
                assert(es[i].0 == k2);
            }
            if has_key(es, k2) {
                let i = choose|i: int|
                    0 <= i < es.len() && es[i].0 == k2 && lookup(es, k2) == Some(es[i].1)
                        && forall|j: int| 0 <= j < i ==> es[j].0 != k2;
                let i2 = choose|i: int|
                    0 <= i < out.len() && out[i].0 == k2 && lookup(out, k2) == Some(out[i].1)
                        && forall|j: int| 0 <= j < i ==> out[j].0 != k2;
                if i != i2 {
                    if i < i2 {
                        assert(out[i].0 == k2);
                    } else {
                        assert(es[i2].0 == k2);
                    }
                }
            }
        } else {
            assert(has_key(out, k));
        }
    } else {
        assert(out =~= es.push((k, v)));
        assert(out.drop_last() =~= es);
        assert forall|i: int, j: int| 0 <= i < j < out.len() implies #[trigger] out[i].0
            != #[trigger] out[j].0 by {
            if j < es.len() {
                assert(es[i].0 != es[j].0);
            } else if out[i].0 == k {
                assert(es[i].0 == k);
            }
        }
        assert(out[out.len() - 1].0 == k);
        if has_key(es, k2) {
            let i = choose|i: int| 0 <= i < es.len() && #[trigger] es[i].0 == k2;
            assert(out[i].0 == k2);
        }
        if has_key(out, k2) && k2 != k {
            let i = choose|i: int| 0 <= i < out.len() && #[trigger] out[i].0 == k2;
            assert(es[i].0 == k2);
        }
    }
}

/// `lookup` finds the first entry with the key, and nothing when no entry
/// has it.
pub proof fn lemma_lookup(es: Seq<(Seq<char>, Json)>, k: Seq<char>)
    ensures
        lookup(es, k) is None <==> !has_key(es, k),
        lookup(es, k) is Some ==> exists|i: int|
            0 <= i < es.len() && es[i].0 == k && lookup(es, k) == Some(es[i].1) && forall|j: int|
                0 <= j < i ==> es[j].0 != k,
    decreases es.len(),
{
    if es.len() > 0 {
        let p = es.drop_last();
        lemma_lookup(p, k);
        if has_key(p, k) {
            let i = choose|i: int| 0 <= i < p.len() && #[trigger] p[i].0 == k;
            assert(es[i].0 == k);
        }
        if has_key(es, k) && !has_key(p, k) {
            let i = choose|i: int| 0 <= i < es.len() && #[trigger] es[i].0 == k;
            if i < p.len() {
                assert(p[i].0 == k);
            }
        }
        if lookup(es, k) is Some {
            if lookup(p, k) is Some {
                let i = choose|i: int|
                    0 <= i < p.len() && p[i].0 == k && lookup(p, k) == Some(p[i].1) && forall|j: int|
                        0 <= j < i ==> p[j].0 != k;
                assert(es[i] == p[i]);
                assert forall|j: int| 0 <= j < i implies es[j].0 != k by {
                    assert(es[j] == p[j]);
                }
            } else {
                let i = es.len() - 1;
                assert forall|j: int| 0 <= j < i implies es[j].0 != k by {
                    assert(es[j] == p[j]);
                    assert(!has_key(p, k));
                    if es[j].0 == k {
                        assert(p[j].0 == k);
                    }
                }
            }
        }
    }
}

impl JsonMap {
    #[verifier::type_invariant]
    spec fn distinct_keys(self) -> bool {
        forall|i: int, j: int|
            0 <= i < j < self.entries.len() ==> #[trigger] self.entries@[i].0@
                != #[trigger] self.entries@[j].0@
    }

    proof fn lemma_model(self)
        requires
            self.distinct_keys(),
        ensures
            self@ == entries_of(self.entries@),
            self@.len() == self.entries.len(),
            forall|i: int|
                0 <= i < self.entries.len() ==> #[trigger] self@[i] == (
                    self.entries@[i].0@,
                    self.entries@[i].1@,
                ),
            keys_distinct(self@),
    {
        lemma_entries_of(self.entries@);
        assert forall|i: int, j: int| 0 <= i < j < self@.len() implies #[trigger] self@[i].0
            != #[trigger] self@[j].0 by {
            assert(self@[i] == (self.entries@[i].0@, self.entries@[i].1@));
            assert(self@[j] == (self.entries@[j].0@, self.entries@[j].1@));
        }
    }

    /// An empty object.
    pub fn new() -> (r: JsonMap)
        ensures
            r@ == Seq::<(Seq<char>, Json)>::empty(),
    {
        let r = JsonMap { entries: Vec::new() };
        proof {
            lemma_entries_of(r.entries@);
            assert(r@ =~= Seq::<(Seq<char>, Json)>::empty());
        }
        r
    }

    /// The number of entries.
    pub fn len(&self) -> (r: usize)
        ensures
            r == self@.len(),
    {
        proof {
            use_type_invariant(self);
            self.lemma_model();
        }
        self.entries.len()
    }

    /// The entries, in order.
    pub fn entries(&self) -> (r: &Vec<(String, JsonValue)>)
        ensures
            entries_of(r@) == self@,
            keys_distinct(self@),
    {
        proof {
            use_type_invariant(self);
            self.lemma_model();
        }
        &self.entries
    }

    /// The entries, in order, taken out of the object.
    pub fn into_entries(self) -> (r: Vec<(String, JsonValue)>)
        ensures
            entries_of(r@) == self@,
            keys_distinct(self@),
    {
        proof {
            use_type_invariant(&self);
            self.lemma_model();
        }
        self.entries
    }

    /// The position of the entry with key `key`, if there is one.
    fn find(&self, key: &str) -> (r: Option<usize>)
        ensures
            match r {
                Some(i) => i < self@.len() && self@[i as int].0 == key@ && key_index(self@, key@)
                    == i,
                None => !has_key(self@, key@),
            },
            keys_distinct(self@),
    {
        proof {
            use_type_invariant(self);
            self.lemma_model();
        }
        let n = self.entries.len();
        let mut i: usize = 0;
        while i < n
            invariant
                n == self.entries.len(),
                n == self@.len(),
                i <= n,
                keys_distinct(self@),
                forall|j: int|
                    0 <= j < self.entries.len() ==> #[trigger] self@[j] == (
                        self.entries@[j].0@,
                        self.entries@[j].1@,
                    ),
                forall|j: int| 0 <= j < i ==> #[trigger] self@[j].0 != key@,
            decreases n - i,
        {
            if str_eq(self.entries[i].0.as_str(), key) {
                assert(self@[i as int].0 == key@);
                assert(has_key(self@, key@));
                let ghost c = key_index(self@, key@);
                assert(self@[c].0 == key@);
                assert(c == i);
                return Some(i);
            }
            i += 1;
        }
        None
    }

    /// Whether some entry has key `key`.
    pub fn contains_key(&self, key: &str) -> (r: bool)
        ensures
            r == has_key(self@, key@),
    {
        self.find(key).is_some()
    }

    /// The value stored under `key`, if any.
    pub fn get(&self, key: &str) -> (r: Option<&JsonValue>)
        ensures
            match r {
                Some(v) => lookup(self@, key@) == Some(v@),
                None => lookup(self@, key@) is None,
            },
    {
        proof {
            use_type_invariant(self);
            self.lemma_model();
            lemma_lookup(self@, key@);
        }
        match self.find(key) {
            Some(i) => {
                proof {
                    let j = choose|j: int|
                        0 <= j < self@.len() && self@[j].0 == key@ && lookup(self@, key@) == Some(
                            self@[j].1,
                        ) && forall|m: int| 0 <= m < j ==> self@[m].0 != key@;
                    assert(j == i);
                }
                Some(&self.entries[i].1)
            },
            None => None,
        }
    }

    /// Inserts `value` under `key`. An existing key keeps its place and the
    /// value it held is returned; a new key goes at the end.
    pub fn insert(&mut self, key: String, value: JsonValue) -> (r: Option<JsonValue>)
        ensures
            final(self)@ == map_insert(old(self)@, key@, value@),
            match r {
                Some(o) => has_key(old(self)@, key@) && lookup(old(self)@, key@) == Some(o@),
                None => !has_key(old(self)@, key@),
            },
    {
        proof {
            use_type_invariant(&*self);
            self.lemma_model();
            lemma_lookup(self@, key@);
        }
        match self.find(key.as_str()) {
            Some(i) => {
                let ghost old_entries = self.entries@;
                let mut entries: Vec<(String, JsonValue)> = Vec::new();
                std::mem::swap(&mut entries, &mut self.entries);
                let old_entry = entries.remove(i);
                entries.insert(i, (key, value));
                proof {
                    assert(entries@ =~= old_entries.update(i as int, (key, value)));
                    assert forall|a: int, b: int|
                        0 <= a < b < entries.len() implies #[trigger] entries@[a].0@
                        != #[trigger] entries@[b].0@ by {
                        assert(old_entries[a].0@ != old_entries[b].0@);
                    }
                }
                self.entries = entries;
                proof {
                    assert(old_entries[i as int] == old_entry);
                    self.lemma_model();
                    assert(self@ =~= map_insert(old(self)@, key@, value@));
                    let j = choose|j: int|
                        0 <= j < old(self)@.len() && old(self)@[j].0 == key@ && lookup(
                            old(self)@,
                            key@,
                        ) == Some(old(self)@[j].1) && forall|m: int|
                            0 <= m < j ==> old(self)@[m].0 != key@;
                    assert(j == i);
                }
                Some(old_entry.1)
            },
            None => {
                let ghost old_entries = self.entries@;
                let mut entries: Vec<(String, JsonValue)> = Vec::new();
                std::mem::swap(&mut entries, &mut self.entries);
                entries.push((key, value));
                proof {
                    assert forall|a: int, b: int|
                        0 <= a < b < entries.len() implies #[trigger] entries@[a].0@
                        != #[trigger] entries@[b].0@ by {
                        if b < old_entries.len() {
                            assert(old_entries[a].0@ != old_entries[b].0@);
                        } else {
                            assert(old(self)@[a] == (old_entries[a].0@, old_entries[a].1@));
                            if old_entries[a].0@ == key@ {
                                assert(old(self)@[a].0 == key@);
                            }
                        }
                    }
                }
                self.entries = entries;
                proof {
                    self.lemma_model();
                    assert(self@ =~= map_insert(old(self)@, key@, value@));
                }
                None
            },
        }
    }
}

impl JsonValue {
    /// The value under `key`, when this is an object that has it.
    pub fn get(&self, key: &str) -> (r: Option<&JsonValue>)
        ensures
            match self@ {
                Json::Object(es) => match r {
                    Some(v) => lookup(es, key@) == Some(v@),
                    None => lookup(es, key@) is None,
                },
                _ => r is None,
            },
    {
        match self {
            JsonValue::Object(m) => m.get(key),
            _ => None,
        }
    }

    /// The object, when this is one.
    pub fn as_object(&self) -> (r: Option<&JsonMap>)
        ensures
            match self@ {
                Json::Object(es) => r matches Some(m) && m@ == es,
                _ => r is None,
            },
    {
        match self {
            JsonValue::Object(m) => Some(m),
            _ => None,
        }
    }

    /// The string, when this is one.
    pub fn as_str(&self) -> (r: Option<&str>)
        ensures
            match self@ {
                Json::Str(s) => r matches Some(t) && t@ == s,
                _ => r is None,
            },
    {
        match self {
            JsonValue::String(s) => Some(s.as_str()),
            _ => None,
        }
    }

    /// The number as a `u64`, when this is a non-negative integer.
    pub fn as_u64(&self) -> (r: Option<u64>)
        ensures
            match self@ {
                Json::Number(n) => r == n.spec_as_u64(),
                _ => r is None,
            },
    {
        match self {
            JsonValue::Number(n) => n.as_u64(),
            _ => None,
        }
    }
}

/// A copy of a document.
fn copy_value(v: &JsonValue) -> (r: JsonValue)
    ensures
        r@ == v@,
    decreases v@,
{
    match v {
        JsonValue::Null => JsonValue::Null,
        JsonValue::Bool(b) => JsonValue::Bool(*b),
        JsonValue::Number(n) => JsonValue::Number(*n),
        JsonValue::String(s) => JsonValue::String(s.clone()),
        JsonValue::Array(items) => {
            proof {
                assert(decreases_to!(v@ => v@->Array_0));
            }
            JsonValue::Array(copy_items(items))
        },
        JsonValue::Object(m) => {
            proof {
                assert(decreases_to!(v@ => v@->Object_0));
            }
            JsonValue::Object(copy_map(m))
        },
    }
}

/// A copy of each element, in order.
fn copy_items(items: &Vec<JsonValue>) -> (r: Vec<JsonValue>)
    ensures
        jsons_of(r@) == jsons_of(items@),
    decreases jsons_of(items@),
{
    proof {
        lemma_jsons_of(items@);
    }
    let ghost xs = jsons_of(items@);
    let n = items.len();
    let mut out: Vec<JsonValue> = Vec::new();
    let mut i: usize = 0;
    while i < n
        invariant
            n == items.len(),
            i <= n,
            xs == jsons_of(items@),
            xs.len() == n,
            forall|j: int| 0 <= j < n ==> #[trigger] xs[j] == items@[j]@,
            jsons_of(out@) == xs.take(i as int),
        decreases n - i,
    {
        proof {
            assert(decreases_to!(xs => xs[i as int]));
        }
        let x = copy_value(&items[i]);
        let ghost before = out@;
        out.push(x);
        proof {
            assert(out@.drop_last() =~= before);
            assert(xs.take(i + 1) =~= xs.take(i as int).push(xs[i as int]));
        }
        i += 1;
    }
    assert(xs.take(n as int) =~= xs);
    out
}

/// A copy of an object, entries in the same order.
fn copy_map(m: &JsonMap) -> (r: JsonMap)
    ensures
        r@ == m@,
    decreases m@,
{
    proof {
        use_type_invariant(m);
        m.lemma_model();
    }
    let ghost ms = m@;
    let n = m.entries.len();
    let mut out: Vec<(String, JsonValue)> = Vec::new();
    let mut i: usize = 0;
    while i < n
        invariant
            n == m.entries.len(),
            i <= n,
            ms == m@,
            ms.len() == n,
            keys_distinct(ms),
            forall|j: int|
                0 <= j < n ==> #[trigger] ms[j] == (m.entries@[j].0@, m.entries@[j].1@),
            out.len() == i,
            forall|j: int| 0 <= j < i ==> (#[trigger] out@[j]).0@ == ms[j].0 && out@[j].1@ == ms[j].1,
        decreases n - i,
    {
        proof {
            assert(decreases_to!(ms => ms[i as int]));
            assert(decreases_to!(ms[i as int] => ms[i as int].1));
        }
        let k = m.entries[i].0.clone();
        let x = copy_value(&m.entries[i].1);
        out.push((k, x));
        i += 1;
    }
    proof {
        assert forall|a: int, b: int|
            0 <= a < b < out.len() implies #[trigger] out@[a].0@ != #[trigger] out@[b].0@ by {
            assert(ms[a].0 != ms[b].0);
        }
    }
    let r = JsonMap { entries: out };
    proof {
        r.lemma_model();
        assert(r@ =~= ms);
    }
    r
}

impl Clone for JsonValue {
    /// A deep copy.
    fn clone(&self) -> (r: Self)
        ensures
            r@ == self@,
    {
        copy_value(self)
    }
}

impl Clone for JsonMap {
    /// A deep copy, entries in the same order.
    fn clone(&self) -> (r: Self)
        ensures
            r@ == self@,
    {
        copy_map(self)
    }
}

/// Whether two strings hold the same characters.
pub(crate) fn str_eq(a: &str, b: &str) -> (r: bool)
    ensures
        r == (a@ == b@),
{
    let a_owned = a.to_owned();
    let b_owned = b.to_owned();
    a_owned == b_owned
}

} // verus!
