//! The value tree, and the mathematical value that each tree stands for.

use vstd::prelude::*;
use vstd::std_specs::cmp::PartialEqSpecImpl;
use crate::number::Number;

verus! {

/// A value as mathematics has it: the leaves by their content, an array as a
/// sequence, an object as a mapping from keys to values.
pub enum Json {
    /// A number, by the text that writes it.
    Number(Seq<char>),
    String(Seq<char>),
    Boolean(bool),
    Null,
    Object(Map<Seq<char>, Json>),
    Array(Seq<Json>),
}

/// One node of a value tree. Each node owns its children.
///
/// Two trees are equal (`==`) where they stand for the same value.
#[derive(Debug)]
pub enum Value {
    Number(Number),
    String(String),
    Boolean(bool),
    Null,
    Object(Object),
    Array(Vec<Value>),
}

/// The members of an object: a mapping from keys to values, kept as a list
/// of entries in which no key comes twice.
///
/// Two objects are equal (`==`) where they are the same mapping, in
/// whatever order their members were put in.
#[derive(Debug)]
pub struct Object {
    entries: Vec<(String, Value)>,
}

/// What each of `items` stands for, in their order.
pub open spec fn views(items: Seq<Value>) -> Seq<Json>
    decreases items,
{
    Seq::new(
        items.len(),
        |i: int|
            if 0 <= i < items.len() {
                items[i].view()
            } else {
                Json::Null
            },
    )
}

/// The mapping that `entries` build when each in turn is put into it: of two
/// entries with one key the later counts.
pub open spec fn mapping(entries: Seq<(String, Value)>) -> Map<Seq<char>, Json>
    decreases entries,
{
    if entries.len() == 0 {
        Map::empty()
    } else {
        mapping(entries.drop_last()).insert(entries.last().0@, entries.last().1.view())
    }
}

/// No two of `entries` have the same key.
pub open spec fn distinct_keys(entries: Seq<(String, Value)>) -> bool {
    forall|i: int, j: int|
        0 <= i < j < entries.len() ==> (#[trigger] entries[i]).0@ != (#[trigger] entries[j]).0@
}

impl Value {
    /// The value that this tree stands for.
    pub open spec fn view(&self) -> Json
        decreases self,
    {
        match self {
            Value::Number(number) => Json::Number(number@),
            Value::String(text) => Json::String(text@),
            Value::Boolean(b) => Json::Boolean(*b),
            Value::Null => Json::Null,
            Value::Object(members) => Json::Object(members.view()),
            Value::Array(items) => Json::Array(views(items@)),
        }
    }
}

/// The keys of `mapping(entries)` are the keys of the entries.
pub proof fn lemma_mapping_keys(entries: Seq<(String, Value)>, key: Seq<char>)
    ensures
        mapping(entries).dom().contains(key) <==> exists|i: int|
            0 <= i < entries.len() && (#[trigger] entries[i]).0@ == key,
    decreases entries.len(),
{
    if entries.len() > 0 {
        let front = entries.drop_last();
        lemma_mapping_keys(front, key);
        if mapping(entries).dom().contains(key) && entries.last().0@ != key {
            let i = choose|i: int| 0 <= i < front.len() && (#[trigger] front[i]).0@ == key;
            assert(entries[i].0@ == key);
        }
        if exists|i: int| 0 <= i < entries.len() && (#[trigger] entries[i]).0@ == key {
            let i = choose|i: int| 0 <= i < entries.len() && (#[trigger] entries[i]).0@ == key;
            if i < front.len() {
                assert(front[i].0@ == key);
            }
        }
    }
}

/// Where no key comes twice, `mapping(entries)` takes the key of each entry
/// to the value of that entry, and has as many keys as there are entries.
pub proof fn lemma_mapping_of_distinct(entries: Seq<(String, Value)>)
    requires
        distinct_keys(entries),
    ensures
        forall|i: int|
            0 <= i < entries.len() ==> mapping(entries).dom().contains((#[trigger] entries[i]).0@)
                && mapping(entries)[entries[i].0@] == entries[i].1@,
        mapping(entries).dom().finite(),
        mapping(entries).len() == entries.len(),
    decreases entries.len(),
{
    if entries.len() > 0 {
        let front = entries.drop_last();
        assert forall|i: int, j: int| 0 <= i < j < front.len() implies (#[trigger] front[i]).0@ != (
        #[trigger] front[j]).0@ by {
            assert(entries[i].0@ != entries[j].0@);
        }
        lemma_mapping_of_distinct(front);
        lemma_mapping_keys(front, entries.last().0@);
        assert forall|i: int| 0 <= i < entries.len() implies mapping(entries).dom().contains(
            (#[trigger] entries[i]).0@,
        ) && mapping(entries)[entries[i].0@] == entries[i].1@ by {
            if i < front.len() {
                assert(front[i].0@ == entries[i].0@);
                assert(entries[i].0@ != entries[entries.len() - 1].0@);
            }
        }
        if mapping(front).dom().contains(entries.last().0@) {
            let i = choose|i: int|
                0 <= i < front.len() && (#[trigger] front[i]).0@ == entries.last().0@;
            assert(entries[i].0@ != entries[entries.len() - 1].0@);
        }
    }
}

/// Putting an entry behind the others puts it into their mapping.
pub proof fn lemma_mapping_push(entries: Seq<(String, Value)>, entry: (String, Value))
    ensures
        mapping(entries.push(entry)) == mapping(entries).insert(entry.0@, entry.1@),
{
    assert(entries.push(entry).drop_last() =~= entries);
}

/// Where no key comes twice, a new value in the place of an entry puts that
/// value into the mapping under the entry's key.
pub proof fn lemma_mapping_update(entries: Seq<(String, Value)>, i: int, entry: (String, Value))
    requires
        distinct_keys(entries),
        0 <= i < entries.len(),
        entry.0@ == entries[i].0@,
    ensures
        mapping(entries.update(i, entry)) == mapping(entries).insert(entry.0@, entry.1@),
        distinct_keys(entries.update(i, entry)),
    decreases entries.len(),
{
    let updated = entries.update(i, entry);
    assert forall|a: int, b: int| 0 <= a < b < updated.len() implies (#[trigger] updated[a]).0@ != (
    #[trigger] updated[b]).0@ by {
        assert(entries[a].0@ != entries[b].0@);
    }
    let front = entries.drop_last();
    if i == entries.len() - 1 {
        assert(updated.drop_last() =~= front);
        assert(mapping(updated) =~= mapping(entries).insert(entry.0@, entry.1@));
    } else {
        assert forall|a: int, b: int| 0 <= a < b < front.len() implies (#[trigger] front[a]).0@ != (
        #[trigger] front[b]).0@ by {
            assert(entries[a].0@ != entries[b].0@);
        }
        lemma_mapping_update(front, i, entry);
        assert(updated.drop_last() =~= front.update(i, entry));
        assert(entries[i].0@ != entries[entries.len() - 1].0@);
        assert(mapping(updated) =~= mapping(entries).insert(entry.0@, entry.1@));
    }
}

impl Object {
    #[verifier::type_invariant]
    spec fn no_key_twice(&self) -> bool {
        distinct_keys(self.entries@)
    }

    /// The mapping from each key to its value.
    pub closed spec fn view(&self) -> Map<Seq<char>, Json>
        decreases self,
    {
        mapping(self.entries@)
    }

    /// An object without members.
    pub fn new() -> (members: Object)
        ensures
            members@ == Map::<Seq<char>, Json>::empty(),
    {
        Object { entries: Vec::new() }
    }

    /// The number of members.
    pub fn len(&self) -> (n: usize)
        ensures
            self@.dom().finite(),
            n == self@.len(),
    {
        proof {
            use_type_invariant(self);
            lemma_mapping_of_distinct(self.entries@);
        }
        self.entries.len()
    }

    /// Where among the entries `key` stands.
    fn position(&self, key: &String) -> (found: Option<usize>)
        ensures
            match found {
                Some(i) => i < self.entries.len() && self.entries@[i as int].0@ == key@,
                None => !self@.dom().contains(key@),
            },
    {
        let mut i: usize = 0;
        while i < self.entries.len()
            invariant
                i <= self.entries.len(),
                forall|j: int| 0 <= j < i ==> (#[trigger] self.entries@[j]).0@ != key@,
            decreases self.entries.len() - i,
        {
            if self.entries[i].0 == *key {
                return Some(i);
            }
            i += 1;
        }
        proof {
            lemma_mapping_keys(self.entries@, key@);
        }
        None
    }

    /// Puts `value` under `key`, in the place of the value that stood there
    /// if there was one.
    pub fn insert(&mut self, key: String, value: Value)
        ensures
            final(self)@ == old(self)@.insert(key@, value@),
    {
        proof {
            use_type_invariant(&*self);
        }
        let found = self.position(&key);
        let mut entries: Vec<(String, Value)> = Vec::new();
        std::mem::swap(&mut self.entries, &mut entries);
        match found {
            Some(i) => {
                proof {
                    lemma_mapping_update(entries@, i as int, (key, value));
                }
                entries.set(i, (key, value));
            },
            None => {
                proof {
                    lemma_mapping_push(entries@, (key, value));
                    lemma_mapping_keys(entries@, key@);
                    let longer = entries@.push((key, value));
                    assert forall|a: int, b: int| 0 <= a < b < longer.len() implies (
                    #[trigger] longer[a]).0@ != (#[trigger] longer[b]).0@ by {
                        if b < entries@.len() {
                            assert(entries@[a].0@ != entries@[b].0@);
                        } else {
                            assert(entries@[a].0@ != key@);
                        }
                    }
                }
                entries.push((key, value));
            },
        }
        std::mem::swap(&mut self.entries, &mut entries);
    }

    /// The value under `key`, if there is one.
    pub fn get(&self, key: &str) -> (found: Option<&Value>)
        ensures
            match found {
                Some(value) => self@.dom().contains(key@) && value@ == self@[key@],
                None => !self@.dom().contains(key@),
            },
    {
        let key = key.to_owned();
        match self.position(&key) {
            Some(i) => {
                proof {
                    use_type_invariant(self);
                    lemma_mapping_of_distinct(self.entries@);
                }
                Some(&self.entries[i].1)
            },
            None => None,
        }
    }

    /// The members, each key once.
    pub fn entries(&self) -> (entries: &Vec<(String, Value)>)
        ensures
            mapping(entries@) == self@,
            distinct_keys(entries@),
    {
        proof {
            use_type_invariant(self);
        }
        &self.entries
    }
}

impl PartialEq for Value {
    fn eq(&self, other: &Value) -> (r: bool)
        decreases self,
    {
        match (self, other) {
            (Value::Number(a), Value::Number(b)) => *a == *b,
            (Value::String(a), Value::String(b)) => *a == *b,
            (Value::Boolean(a), Value::Boolean(b)) => *a == *b,
            (Value::Null, Value::Null) => true,
            (Value::Object(a), Value::Object(b)) => a.eq(b),
            (Value::Array(a), Value::Array(b)) => {
                if a.len() != b.len() {
                    assert(views(a@).len() != views(b@).len());
                    return false;
                }
                let mut i: usize = 0;
                while i < a.len()
                    invariant
                        self == Value::Array(*a),
                        other == Value::Array(*b),
                        a.len() == b.len(),
                        i <= a.len(),
                        forall|j: int| 0 <= j < i ==> (#[trigger] a@[j])@ == b@[j]@,
                    decreases a.len() - i,
                {
                    proof {
                        vstd::std_specs::vec::axiom_vec_index_decreases(*a, i as int);
                        assert(self->Array_0 == *a);
                    }
                    if !a[i].eq(&b[i]) {
                        assert(views(a@)[i as int] != views(b@)[i as int]);
                        return false;
                    }
                    i += 1;
                }
                assert(views(a@) =~= views(b@));
                true
            },
            _ => false,
        }
    }
}

impl PartialEqSpecImpl for Value {
    open spec fn obeys_eq_spec() -> bool {
        true
    }

    open spec fn eq_spec(&self, other: &Value) -> bool {
        self@ == other@
    }
}

impl PartialEq for Object {
    fn eq(&self, other: &Object) -> (r: bool)
        decreases self,
    {
        proof {
            use_type_invariant(self);
            use_type_invariant(other);
            lemma_mapping_of_distinct(self.entries@);
            lemma_mapping_of_distinct(other.entries@);
        }
        if self.entries.len() != other.entries.len() {
            return false;
        }
        let mut i: usize = 0;
        while i < self.entries.len()
            invariant
                i <= self.entries.len(),
                distinct_keys(self.entries@),
                distinct_keys(other.entries@),
                forall|j: int|
                    0 <= j < i ==> other@.dom().contains((#[trigger] self.entries@[j]).0@)
                        && other@[self.entries@[j].0@] == self.entries@[j].1@,
            decreases self.entries.len() - i,
        {
            proof {
                lemma_mapping_of_distinct(self.entries@);
                lemma_mapping_of_distinct(other.entries@);
            }
            match other.position(&self.entries[i].0) {
                Some(j) => {
                    if !self.entries[i].1.eq(&other.entries[j].1) {
                        assert(self@[self.entries@[i as int].0@] == self.entries@[i as int].1@);
                        assert(other@[other.entries@[j as int].0@] == other.entries@[j as int].1@);
                        return false;
                    }
                },
                None => {
                    assert(self@.dom().contains(self.entries@[i as int].0@));
                    return false;
                },
            }
            i += 1;
        }
        proof {
            assert forall|key: Seq<char>| #[trigger]
                self@.dom().contains(key) implies other@.dom().contains(key) && self@[key]
                == other@[key] by {
                lemma_mapping_keys(self.entries@, key);
                let j = choose|j: int|
                    0 <= j < self.entries@.len() && (#[trigger] self.entries@[j]).0@ == key;
                assert(self@[self.entries@[j].0@] == self.entries@[j].1@);
            }
            assert(self@.dom().subset_of(other@.dom()));
            vstd::set_lib::lemma_subset_equality(self@.dom(), other@.dom());
            assert(self@ =~= other@);
        }
        true
    }
}

impl PartialEqSpecImpl for Object {
    open spec fn obeys_eq_spec() -> bool {
        true
    }

    open spec fn eq_spec(&self, other: &Object) -> bool {
        self@ == other@
    }
}

} // verus!
