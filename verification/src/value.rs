//! Tree-shaped values: null, booleans, numbers, strings, arrays and objects.
use crate::number::{Decimal, Number};
use crate::text::{same_text, texts};
use vstd::prelude::*;

verus! {

/// The mathematical value that a [`Value`] stands for. An object is a finite
/// map from names to values: the order of its entries is no part of it.
pub enum Json {
    Null,
    Bool(bool),
    Number(Decimal),
    String(Seq<char>),
    Array(Seq<Json>),
    Object(Map<Seq<char>, Json>),
}

/// A tree-shaped value.
#[derive(Debug)]
pub enum Value {
    Null,
    Bool(bool),
    Number(Number),
    String(String),
    Array(Vec<Value>),
    Object(Object),
}

/// A mapping from names to values, each name at most once.
#[derive(Debug)]
pub struct Object {
    keys: Vec<String>,
    values: Vec<Value>,
}

/// Whether no name occurs twice.
pub open spec fn distinct(keys: Seq<Seq<char>>) -> bool {
    forall|i: int, j: int| 0 <= i < j < keys.len() ==> keys[i] != keys[j]
}

/// A position at which `key` stands in `keys`.
pub open spec fn position_of(keys: Seq<Seq<char>>, key: Seq<char>) -> int {
    choose|i: int| 0 <= i < keys.len() && keys[i] == key
}

/// The map that sends each name to the value at its position.
pub open spec fn map_of(keys: Seq<Seq<char>>, values: Seq<Json>) -> Map<Seq<char>, Json> {
    Map::new(|k: Seq<char>| keys.contains(k), |k: Seq<char>| values[position_of(keys, k)])
}

/// The value that a [`Value`] stands for.
pub open spec fn value_view(v: Value) -> Json
    decreases v,
{
    match v {
        Value::Null => Json::Null,
        Value::Bool(b) => Json::Bool(b),
        Value::Number(n) => Json::Number(n@),
        Value::String(s) => Json::String(s@),
        Value::Array(items) => Json::Array(values_view(items@)),
        Value::Object(o) => Json::Object(object_view(o)),
    }
}

/// The values that a sequence of [`Value`]s stands for, one for one.
pub open spec fn values_view(vs: Seq<Value>) -> Seq<Json>
    decreases vs,
{
    if vs.len() == 0 {
        Seq::empty()
    } else {
        values_view(vs.drop_last()).push(value_view(vs.last()))
    }
}

/// The map that an [`Object`] stands for.
pub closed spec fn object_view(o: Object) -> Map<Seq<char>, Json>
    decreases o,
{
    map_of(texts(o.keys@), values_view(o.values@))
}

/// The values of a sequence stand for as many values, one for one.
pub proof fn lemma_values_view(vs: Seq<Value>)
    ensures
        values_view(vs).len() == vs.len(),
        forall|i: int| 0 <= i < vs.len() ==> #[trigger] values_view(vs)[i] == value_view(vs[i]),
    decreases vs.len(),
{
    if vs.len() > 0 {
        lemma_values_view(vs.drop_last());
    }
}

/// One more value at the end stands for one more value at the end.
pub proof fn lemma_values_view_push(vs: Seq<Value>, v: Value)
    ensures
        values_view(vs.push(v)) == values_view(vs).push(value_view(v)),
{
    assert(vs.push(v).drop_last() =~= vs);
}

/// Where a name stands in a sequence without repetition, it stands nowhere else.
pub proof fn lemma_position(keys: Seq<Seq<char>>, i: int)
    requires
        distinct(keys),
        0 <= i < keys.len(),
    ensures
        position_of(keys, keys[i]) == i,
        keys.contains(keys[i]),
{
}

impl View for Value {
    type V = Json;

    open spec fn view(&self) -> Json {
        value_view(*self)
    }
}

impl View for Object {
    type V = Map<Seq<char>, Json>;

    open spec fn view(&self) -> Map<Seq<char>, Json> {
        object_view(*self)
    }
}

/// The views of the rows of a table, one for one.
pub open spec fn rows_view(rows: Seq<Object>) -> Seq<Map<Seq<char>, Json>> {
    Seq::new(rows.len(), |i: int| rows[i]@)
}

impl Object {
    #[verifier::type_invariant]
    spec fn well_formed(self) -> bool {
        &&& self.keys.len() == self.values.len()
        &&& distinct(texts(self.keys@))
    }

    /// The names of the entries, in the order in which they are held.
    pub closed spec fn names(&self) -> Seq<Seq<char>> {
        texts(self.keys@)
    }

    /// The values of the entries, in the order in which they are held.
    pub closed spec fn items(&self) -> Seq<Json> {
        values_view(self.values@)
    }

    /// An object without entries.
    pub fn new() -> (r: Object)
        ensures
            r@ == Map::<Seq<char>, Json>::empty(),
            r.names().len() == 0,
    {
        let r = Object { keys: Vec::new(), values: Vec::new() };
        proof {
            assert(r@ =~= Map::<Seq<char>, Json>::empty());
        }
        r
    }

    /// The number of entries. The entries are held in some order, each name
    /// once, and make up the map that the object stands for.
    pub fn len(&self) -> (r: usize)
        ensures
            r == self.names().len(),
            r == self.items().len(),
            distinct(self.names()),
            self@ == map_of(self.names(), self.items()),
            self@.dom().finite(),
    {
        proof {
            use_type_invariant(self);
            lemma_values_view(self.values@);
            lemma_map_of_finite(self.names(), self.items());
        }
        self.keys.len()
    }

    /// The name of the entry at position `i`.
    pub fn key_at(&self, i: usize) -> (r: &String)
        requires
            i < self.names().len(),
        ensures
            r@ == self.names()[i as int],
    {
        proof {
            use_type_invariant(self);
        }
        &self.keys[i]
    }

    /// The value of the entry at position `i`.
    pub fn value_at(&self, i: usize) -> (r: &Value)
        requires
            i < self.names().len(),
        ensures
            r@ == self.items()[i as int],
            self@.contains_key(self.names()[i as int]),
            self@[self.names()[i as int]] == r@,
    {
        proof {
            use_type_invariant(self);
            lemma_values_view(self.values@);
            lemma_position(self.names(), i as int);
        }
        &self.values[i]
    }

    fn find(&self, key: &str) -> (r: Option<usize>)
        ensures
            match r {
                Some(i) => i < self.keys.len() && self.keys[i as int]@ == key@,
                None => !self.names().contains(key@),
            },
    {
        let mut i: usize = 0;
        while i < self.keys.len()
            invariant
                i <= self.keys.len(),
                forall|j: int| 0 <= j < i ==> self.keys[j]@ != key@,
            decreases self.keys.len() - i,
        {
            if same_text(self.keys[i].as_str(), key) {
                return Some(i);
            }
            i += 1;
        }
        None
    }

    /// The value under `key`, where the object has one.
    pub fn get(&self, key: &str) -> (r: Option<&Value>)
        ensures
            r is Some <==> self@.contains_key(key@),
            r matches Some(v) ==> v@ == self@[key@],
    {
        proof {
            use_type_invariant(self);
            lemma_values_view(self.values@);
        }
        match self.find(key) {
            Some(i) => {
                proof {
                    lemma_position(self.names(), i as int);
                }
                Some(&self.values[i])
            },
            None => None,
        }
    }

    /// Whether the object has an entry under `key`.
    pub fn contains_key(&self, key: &str) -> (r: bool)
        ensures
            r == self@.contains_key(key@),
    {
        self.get(key).is_some()
    }

    /// Puts `value` under `key`, in place of the value that was there, if any.
    pub fn insert(&mut self, key: String, value: Value)
        ensures
            final(self)@ == old(self)@.insert(key@, value@),
    {
        proof {
            use_type_invariant(&*self);
            lemma_values_view(self.values@);
        }
        let found = self.find(key.as_str());
        let mut taken = Object::new();
        core::mem::swap(self, &mut taken);
        let Object { mut keys, mut values } = taken;
        let ghost old_keys = texts(keys@);
        let ghost old_values = values_view(values@);
        match found {
            Some(i) => {
                values.set(i, value);
                proof {
                    lemma_values_view(values@);
                    let new_values = values_view(values@);
                    assert forall|k: Seq<char>| old_keys.contains(k) implies #[trigger] map_of(
                        old_keys,
                        new_values,
                    )[k] == map_of(old_keys, old_values).insert(key@, value@)[k] by {
                        let j = position_of(old_keys, k);
                        lemma_position(old_keys, j);
                        lemma_position(old_keys, i as int);
                    }
                    lemma_position(old_keys, i as int);
                    assert(map_of(old_keys, new_values).dom() =~= map_of(
                        old_keys,
                        old_values,
                    ).insert(key@, value@).dom());
                    assert(map_of(old_keys, new_values) =~= map_of(old_keys, old_values).insert(
                        key@,
                        value@,
                    ));
                }
            },
            None => {
                keys.push(key);
                values.push(value);
                proof {
                    lemma_values_view(values@);
                    let new_keys = texts(keys@);
                    let new_values = values_view(values@);
                    assert(new_keys =~= old_keys.push(key@));
                    assert forall|k: Seq<char>| new_keys.contains(k) implies #[trigger] map_of(
                        new_keys,
                        new_values,
                    )[k] == map_of(old_keys, old_values).insert(key@, value@)[k] by {
                        let j = position_of(new_keys, k);
                        lemma_position(new_keys, j);
                        if j < old_keys.len() {
                            assert(old_keys[j] == k);
                            lemma_position(old_keys, j);
                        }
                    }
                    assert forall|k: Seq<char>| new_keys.contains(k) <==> (old_keys.contains(k) || k
                        == key@) by {
                        if old_keys.contains(k) {
                            let j = position_of(old_keys, k);
                            assert(new_keys[j] == k);
                        }
                        if k == key@ {
                            assert(new_keys[old_keys.len() as int] == k);
                        }
                    }
                    assert(map_of(new_keys, new_values) =~= map_of(old_keys, old_values).insert(
                        key@,
                        value@,
                    ));
                }
            },
        }
        *self = Object { keys, values };
    }

    /// Takes out the entry under `key`, if there is one.
    pub fn remove(&mut self, key: &str)
        ensures
            final(self)@ == old(self)@.remove(key@),
    {
        proof {
            use_type_invariant(&*self);
            lemma_values_view(self.values@);
        }
        let found = self.find(key);
        let mut taken = Object::new();
        core::mem::swap(self, &mut taken);
        let Object { mut keys, mut values } = taken;
        let ghost old_keys = texts(keys@);
        let ghost old_values = values_view(values@);
        match found {
            Some(i) => {
                keys.remove(i);
                values.remove(i);
                proof {
                    lemma_values_view(values@);
                    let new_keys = texts(keys@);
                    let new_values = values_view(values@);
                    assert(new_keys =~= old_keys.remove(i as int));
                    assert forall|k: Seq<char>| new_keys.contains(k) <==> (old_keys.contains(k) && k
                        != key@) by {
                        if new_keys.contains(k) {
                            let j = position_of(new_keys, k);
                            if j < i {
                                assert(old_keys[j] == k);
                                assert(old_keys[j] != old_keys[i as int]);
                            } else {
                                assert(old_keys[j + 1] == k);
                                assert(old_keys[i as int] != old_keys[j + 1]);
                            }
                            assert(old_keys.contains(k));
                        }
                        if old_keys.contains(k) && k != key@ {
                            let j = position_of(old_keys, k);
                            if j < i {
                                assert(new_keys[j] == k);
                            } else {
                                assert(j != i);
                                assert(new_keys[j - 1] == k);
                            }
                            assert(new_keys.contains(k));
                        }
                    }
                    assert forall|k: Seq<char>| new_keys.contains(k) implies #[trigger] map_of(
                        new_keys,
                        new_values,
                    )[k] == map_of(old_keys, old_values)[k] by {
                        let j = position_of(new_keys, k);
                        lemma_position(new_keys, j);
                        if j < i {
                            lemma_position(old_keys, j);
                        } else {
                            lemma_position(old_keys, j + 1);
                        }
                    }
                    assert(map_of(new_keys, new_values) =~= map_of(old_keys, old_values).remove(
                        key@,
                    ));
                }
            },
            None => {
                proof {
                    assert(map_of(old_keys, old_values) =~= map_of(old_keys, old_values).remove(
                        key@,
                    ));
                }
            },
        }
        *self = Object { keys, values };
    }
}

/// The map of finitely many entries is finite.
pub proof fn lemma_map_of_finite(keys: Seq<Seq<char>>, values: Seq<Json>)
    ensures
        map_of(keys, values).dom().finite(),
{
    vstd::seq_lib::seq_to_set_is_finite(keys);
    assert(map_of(keys, values).dom() =~= keys.to_set());
}

/// Copies a sequence of values.
fn clone_values(items: &Vec<Value>) -> (r: Vec<Value>)
    ensures
        values_view(r@) == values_view(items@),
    decreases items,
{
    let mut out: Vec<Value> = Vec::new();
    let mut i: usize = 0;
    while i < items.len()
        invariant
            i <= items.len(),
            out.len() == i,
            forall|j: int| 0 <= j < i ==> value_view(out[j]) == value_view(items[j]),
        decreases items.len() - i,
    {
        let copy = items[i].clone();
        out.push(copy);
        i += 1;
    }
    proof {
        lemma_values_view(out@);
        lemma_values_view(items@);
        assert(values_view(out@) =~= values_view(items@));
    }
    out
}

fn clone_texts(items: &Vec<String>) -> (r: Vec<String>)
    ensures
        texts(r@) == texts(items@),
{
    let mut out: Vec<String> = Vec::new();
    let mut i: usize = 0;
    while i < items.len()
        invariant
            i <= items.len(),
            out.len() == i,
            forall|j: int| 0 <= j < i ==> out[j]@ == items[j]@,
        decreases items.len() - i,
    {
        out.push(items[i].clone());
        i += 1;
    }
    proof {
        assert(texts(out@) =~= texts(items@));
    }
    out
}

impl Clone for Value {
    fn clone(&self) -> (r: Value)
        ensures
            r@ == self@,
        decreases self,
    {
        match self {
            Value::Null => Value::Null,
            Value::Bool(b) => Value::Bool(*b),
            Value::Number(n) => Value::Number(n.clone()),
            Value::String(s) => Value::String(s.clone()),
            Value::Array(items) => Value::Array(clone_values(items)),
            Value::Object(o) => Value::Object(o.clone()),
        }
    }
}

impl Clone for Object {
    fn clone(&self) -> (r: Object)
        ensures
            r@ == self@,
            r.names() == self.names(),
            r.items() == self.items(),
        decreases self,
    {
        proof {
            use_type_invariant(self);
            lemma_values_view(self.values@);
        }
        let keys = clone_texts(&self.keys);
        let values = clone_values(&self.values);
        proof {
            lemma_values_view(values@);
            assert(texts(keys@).len() == keys.len());
            assert(texts(self.keys@).len() == self.keys.len());
            assert(values.len() == self.values.len());
        }
        Object { keys, values }
    }
}

/// Whether two sequences of values stand for the same values, one for one.
fn same_values(a: &Vec<Value>, b: &Vec<Value>) -> (r: bool)
    ensures
        r == (values_view(a@) == values_view(b@)),
    decreases a,
{
    proof {
        lemma_values_view(a@);
        lemma_values_view(b@);
    }
    if a.len() != b.len() {
        return false;
    }
    let mut i: usize = 0;
    while i < a.len()
        invariant
            i <= a.len(),
            a.len() == b.len(),
            forall|j: int| 0 <= j < i ==> value_view(a[j]) == value_view(b[j]),
            forall|j: int| 0 <= j < a.len() ==> #[trigger] values_view(a@)[j] == value_view(a[j]),
            forall|j: int| 0 <= j < b.len() ==> #[trigger] values_view(b@)[j] == value_view(b[j]),
            values_view(a@).len() == a.len(),
            values_view(b@).len() == b.len(),
        decreases a.len() - i,
    {
        if !same_value(&a[i], &b[i]) {
            proof {
                assert(values_view(a@)[i as int] != values_view(b@)[i as int]);
            }
            return false;
        }
        i += 1;
    }
    proof {
        assert(values_view(a@) =~= values_view(b@));
    }
    true
}

/// Whether every entry of `a` is an entry of `b`.
fn entries_within(a: &Object, b: &Object) -> (r: bool)
    ensures
        r == (forall|k: Seq<char>| #[trigger]
            a@.contains_key(k) ==> b@.contains_key(k) && a@[k] == b@[k]),
    decreases a, 0nat,
{
    let n = a.len();
    let mut i: usize = 0;
    while i < n
        invariant
            i <= n,
            n == a.names().len(),
            n == a.items().len(),
            distinct(a.names()),
            a@ == map_of(a.names(), a.items()),
            forall|j: int|
                0 <= j < i ==> b@.contains_key(#[trigger] a.names()[j]) && a@[a.names()[j]]
                    == b@[a.names()[j]],
        decreases n - i,
    {
        proof {
            use_type_invariant(a);
            lemma_values_view(a.values@);
            lemma_position(a.names(), i as int);
        }
        let matched = match b.get(a.keys[i].as_str()) {
            Some(other) => same_value(&a.values[i], other),
            None => false,
        };
        if !matched {
            proof {
                let k = a.names()[i as int];
                assert(a@.contains_key(k));
                assert(a@[k] == value_view(a.values[i as int]));
            }
            return false;
        }
        i += 1;
    }
    proof {
        assert forall|k: Seq<char>| a@.contains_key(k) implies b@.contains_key(k) && a@[k]
            == b@[k] by {
            let j = position_of(a.names(), k);
            assert(a.names()[j] == k);
        }
    }
    true
}

/// Whether two values stand for the same value.
pub fn same_value(a: &Value, b: &Value) -> (r: bool)
    ensures
        r == (a@ == b@),
    decreases a, 1nat,
{
    match (a, b) {
        (Value::Null, Value::Null) => true,
        (Value::Bool(x), Value::Bool(y)) => *x == *y,
        (Value::Number(x), Value::Number(y)) => x.same(y),
        (Value::String(x), Value::String(y)) => same_text(x.as_str(), y.as_str()),
        (Value::Array(x), Value::Array(y)) => same_values(x, y),
        (Value::Object(x), Value::Object(y)) => same_object(x, y),
        _ => false,
    }
}

/// Whether two objects stand for the same map.
pub fn same_object(a: &Object, b: &Object) -> (r: bool)
    ensures
        r == (a@ == b@),
    decreases a, 1nat,
{
    let forth = entries_within(a, b);
    if !forth {
        return false;
    }
    let n = b.len();
    let mut i: usize = 0;
    while i < n
        invariant
            i <= n,
            n == b.names().len(),
            b@ == map_of(b.names(), b.items()),
            forall|j: int| 0 <= j < i ==> a@.contains_key(#[trigger] b.names()[j]),
        decreases n - i,
    {
        if !a.contains_key(b.key_at(i).as_str()) {
            proof {
                assert(b.names().contains(b.names()[i as int]));
            }
            return false;
        }
        i += 1;
    }
    proof {
        assert forall|k: Seq<char>| b@.contains_key(k) implies a@.contains_key(k) by {
            let j = position_of(b.names(), k);
            assert(b.names()[j] == k);
        }
        assert forall|k: Seq<char>| a@.dom().contains(k) == b@.dom().contains(k) by {
            if a@.contains_key(k) {
                assert(b@.contains_key(k));
            }
            if b@.contains_key(k) {
                assert(a@.contains_key(k));
            }
        }
        assert forall|k: Seq<char>| a@.dom().contains(k) implies a@[k] == b@[k] by {
            assert(a@.contains_key(k));
        }
        assert(a@ =~= b@);
    }
    true
}

impl PartialEq for Value {
    fn eq(&self, other: &Value) -> (r: bool) {
        same_value(self, other)
    }
}

impl vstd::std_specs::cmp::PartialEqSpecImpl for Value {
    open spec fn obeys_eq_spec() -> bool {
        true
    }

    open spec fn eq_spec(&self, other: &Value) -> bool {
        self@ == other@
    }
}

impl PartialEq for Object {
    fn eq(&self, other: &Object) -> (r: bool) {
        same_object(self, other)
    }
}

impl vstd::std_specs::cmp::PartialEqSpecImpl for Object {
    open spec fn obeys_eq_spec() -> bool {
        true
    }

    open spec fn eq_spec(&self, other: &Object) -> bool {
        self@ == other@
    }
}

} // verus!
