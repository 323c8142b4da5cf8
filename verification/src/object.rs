//! The primitive data model of a PDF file: object identifiers, the object
//! variants, dictionaries and streams, each with its mathematical model.

use vstd::prelude::*;

verus! {

/// Addresses one indirect object: its number and its generation.
pub type ObjectId = (u32, u16);

/// The entries of a dictionary, in the order in which they were inserted.
pub type DictModel = Seq<(Seq<u8>, ObjectModel)>;

/// What an [`Object`] is, as a mathematical value.
pub enum ObjectModel {
    Null,
    Boolean(bool),
    Integer(int),
    /// The bit pattern of a single-precision number.
    Real(u32),
    String(Seq<u8>),
    Name(Seq<u8>),
    Array(Seq<ObjectModel>),
    Dictionary(DictModel),
    Stream(DictModel, Seq<u8>),
    Reference(ObjectId),
}

/// A PDF object. A `Reference` names another object of the same table and
/// does not own it.
#[derive(Debug, PartialEq, Eq)]
pub enum Object {
    Null,
    Boolean(bool),
    Integer(i64),
    /// A real number, kept as the bit pattern of its single-precision value.
    Real(u32),
    String(Vec<u8>),
    Name(Vec<u8>),
    Array(Vec<Object>),
    Dictionary(Dictionary),
    Stream(Stream),
    Reference(ObjectId),
}

/// A mapping from names to objects. A key is looked up at its first entry.
#[derive(Debug, PartialEq, Eq)]
pub struct Dictionary {
    pub entries: Vec<(Vec<u8>, Object)>,
}

/// A dictionary together with a raw byte payload.
#[derive(Debug, PartialEq, Eq)]
pub struct Stream {
    pub dict: Dictionary,
    pub content: Vec<u8>,
}

/// The models of a sequence of objects, one by one.
pub open spec fn items_model(items: Seq<Object>) -> Seq<ObjectModel>
    decreases items,
{
    Seq::new(
        items.len(),
        |i: int|
            if 0 <= i < items.len() {
                items[i].view()
            } else {
                ObjectModel::Null
            },
    )
}

/// The models of a sequence of dictionary entries, one by one.
pub open spec fn entries_model(entries: Seq<(Vec<u8>, Object)>) -> DictModel
    decreases entries,
{
    Seq::new(
        entries.len(),
        |i: int|
            if 0 <= i < entries.len() {
                (entries[i].0@, entries[i].1.view())
            } else {
                (Seq::empty(), ObjectModel::Null)
            },
    )
}

impl View for Object {
    type V = ObjectModel;

    open spec fn view(&self) -> ObjectModel
        decreases self,
    {
        match self {
            Object::Null => ObjectModel::Null,
            Object::Boolean(b) => ObjectModel::Boolean(*b),
            Object::Integer(i) => ObjectModel::Integer(*i as int),
            Object::Real(bits) => ObjectModel::Real(*bits),
            Object::String(bytes) => ObjectModel::String(bytes@),
            Object::Name(bytes) => ObjectModel::Name(bytes@),
            Object::Array(items) => ObjectModel::Array(items_model(items@)),
            Object::Dictionary(dict) => ObjectModel::Dictionary(entries_model(dict.entries@)),
            Object::Stream(stream) => ObjectModel::Stream(
                entries_model(stream.dict.entries@),
                stream.content@,
            ),
            Object::Reference(id) => ObjectModel::Reference(*id),
        }
    }
}

impl View for Dictionary {
    type V = DictModel;

    open spec fn view(&self) -> DictModel {
        entries_model(self.entries@)
    }
}

/// `i` is the first entry of `dict` whose key is `key`.
pub open spec fn dict_first(dict: DictModel, key: Seq<u8>, i: int) -> bool {
    &&& 0 <= i < dict.len()
    &&& dict[i].0 == key
    &&& forall|j: int| 0 <= j < i ==> dict[j].0 != key
}

/// `dict` has an entry under `key`.
pub open spec fn dict_has(dict: DictModel, key: Seq<u8>) -> bool {
    exists|i: int| dict_first(dict, key, i)
}

/// The place of the first entry under `key`.
pub open spec fn dict_index(dict: DictModel, key: Seq<u8>) -> int {
    choose|i: int| dict_first(dict, key, i)
}

/// The value that `dict` holds under `key`.
pub open spec fn dict_get(dict: DictModel, key: Seq<u8>) -> Option<ObjectModel> {
    if dict_has(dict, key) {
        Some(dict[dict_index(dict, key)].1)
    } else {
        None
    }
}

/// `dict` after `value` was stored under `key`: an entry under `key` is
/// replaced where it stands, a new key is added at the end.
pub open spec fn dict_set(dict: DictModel, key: Seq<u8>, value: ObjectModel) -> DictModel {
    if dict_has(dict, key) {
        dict.update(dict_index(dict, key), (key, value))
    } else {
        dict.push((key, value))
    }
}

/// The first entry under a key is unique.
pub proof fn lemma_dict_first_unique(dict: DictModel, key: Seq<u8>, i: int)
    requires
        dict_first(dict, key, i),
    ensures
        dict_has(dict, key),
        dict_index(dict, key) == i,
        dict_get(dict, key) == Some(dict[i].1),
{
    let k = dict_index(dict, key);
    assert(dict_first(dict, key, k));
    if k < i {
        assert(dict[k].0 != key);
    }
    if i < k {
        assert(dict[i].0 != key);
    }
}

/// A dictionary without `key` among its entries has no value under it.
pub proof fn lemma_dict_absent(dict: DictModel, key: Seq<u8>)
    requires
        forall|j: int| 0 <= j < dict.len() ==> dict[j].0 != key,
    ensures
        !dict_has(dict, key),
        dict_get(dict, key) is None,
{
}

/// What was stored under a key is what is found under it.
pub proof fn lemma_dict_set_same(dict: DictModel, key: Seq<u8>, value: ObjectModel)
    ensures
        dict_get(dict_set(dict, key, value), key) == Some(value),
{
    let after = dict_set(dict, key, value);
    if dict_has(dict, key) {
        let i = dict_index(dict, key);
        assert(dict_first(dict, key, i));
        assert(dict_first(after, key, i)) by {
            assert forall|j: int| 0 <= j < i implies after[j].0 != key by {
                assert(after[j] == dict[j]);
            }
        }
        lemma_dict_first_unique(after, key, i);
    } else {
        let i = dict.len() as int;
        assert(dict_first(after, key, i)) by {
            assert forall|j: int| 0 <= j < i implies after[j].0 != key by {
                assert(after[j] == dict[j]);
                if dict[j].0 == key {
                    lemma_dict_has_some(dict, key, j);
                }
            }
        }
        lemma_dict_first_unique(after, key, i);
    }
}

/// Storing under one key leaves every other key as it was.
pub proof fn lemma_dict_set_other(dict: DictModel, key: Seq<u8>, value: ObjectModel, other: Seq<u8>)
    requires
        other != key,
    ensures
        dict_get(dict_set(dict, key, value), other) == dict_get(dict, other),
{
    let after = dict_set(dict, key, value);
    assert(forall|j: int| 0 <= j < dict.len() ==> (#[trigger] after[j].0 == other) == (dict[j].0 == other)) by {
        if dict_has(dict, key) {
            assert(dict_first(dict, key, dict_index(dict, key)));
        }
    }
    if dict_has(dict, other) {
        let i = dict_index(dict, other);
        assert(dict_first(dict, other, i));
        assert(dict_first(after, other, i)) by {
            assert forall|j: int| 0 <= j < i implies after[j].0 != other by {
                assert((after[j].0 == other) == (dict[j].0 == other));
            }
            assert((after[i].0 == other) == (dict[i].0 == other));
        }
        if dict_has(dict, key) {
            assert(dict_first(dict, key, dict_index(dict, key)));
        }
        assert(after[i] == dict[i]);
        lemma_dict_first_unique(after, other, i);
    } else {
        if dict_has(after, other) {
            let i = dict_index(after, other);
            assert(dict_first(after, other, i));
            if i < dict.len() {
                assert((after[i].0 == other) == (dict[i].0 == other));
                lemma_dict_has_some(dict, other, i);
            } else {
                if dict_has(dict, key) {
                    assert(dict_first(dict, key, dict_index(dict, key)));
                }
            }
        }
    }
}

/// A dictionary with an entry under `key` at `i` has a first such entry.
pub proof fn lemma_dict_has_some(dict: DictModel, key: Seq<u8>, i: int)
    requires
        0 <= i < dict.len(),
        dict[i].0 == key,
    ensures
        dict_has(dict, key),
    decreases i,
{
    if forall|j: int| 0 <= j < i ==> dict[j].0 != key {
        assert(dict_first(dict, key, i));
    } else {
        let j = choose|j: int| 0 <= j < i && dict[j].0 == key;
        lemma_dict_has_some(dict, key, j);
    }
}

/// Whether two byte strings hold the same bytes.
pub fn bytes_eq(a: &[u8], b: &[u8]) -> (r: bool)
    ensures
        r == (a@ == b@),
{
    if a.len() != b.len() {
        return false;
    }
    let mut i: usize = 0;
    while i < a.len()
        invariant
            0 <= i <= a.len(),
            a.len() == b.len(),
            forall|j: int| 0 <= j < i ==> a@[j] == b@[j],
        decreases a.len() - i,
    {
        if a[i] != b[i] {
            return false;
        }
        i += 1;
    }
    assert(a@ =~= b@);
    true
}

/// A copy of a byte string.
pub fn bytes_clone(a: &[u8]) -> (r: Vec<u8>)
    ensures
        r@ == a@,
{
    let mut out: Vec<u8> = Vec::new();
    let mut i: usize = 0;
    while i < a.len()
        invariant
            0 <= i <= a.len(),
            out@ == a@.take(i as int),
        decreases a.len() - i,
    {
        out.push(a[i]);
        assert(a@.take(i as int).push(a@[i as int]) =~= a@.take(i + 1));
        i += 1;
    }
    assert(a@.take(a.len() as int) =~= a@);
    out
}

impl Clone for Object {
    /// A deep copy: the same model, owned anew.
    fn clone(&self) -> (r: Object)
        ensures
            r@ == self@,
        decreases self, 1int,
    {
        match self {
            Object::Null => Object::Null,
            Object::Boolean(b) => Object::Boolean(*b),
            Object::Integer(i) => Object::Integer(*i),
            Object::Real(bits) => Object::Real(*bits),
            Object::String(bytes) => Object::String(bytes_clone(bytes.as_slice())),
            Object::Name(bytes) => Object::Name(bytes_clone(bytes.as_slice())),
            Object::Array(items) => {
                let mut out: Vec<Object> = Vec::new();
                let mut i: usize = 0;
                while i < items.len()
                    invariant
                        0 <= i <= items.len(),
                        out.len() == i,
                        forall|j: int| 0 <= j < i ==> out@[j]@ == items@[j]@,
                        self is Array,
                        self->Array_0 == *items,
                    decreases items.len() - i,
                {
                    proof {
                        assert(decreases_to!(*self => self->Array_0));
                        assert(decreases_to!(self => items[i as int]));
                    }
                    let copy = items[i].clone();
                    out.push(copy);
                    i += 1;
                }
                assert(items_model(out@) =~= items_model(items@));
                Object::Array(out)
            },
            Object::Dictionary(dict) => {
                proof {
                    assert(decreases_to!(*self => self->Dictionary_0));
                }
                Object::Dictionary(dict.clone())
            },
            Object::Stream(stream) => {
                proof {
                    assert(decreases_to!(*self => self->Stream_0));
                    assert(decreases_to!(*stream => stream.dict));
                }
                Object::Stream(
                    Stream { dict: stream.dict.clone(), content: bytes_clone(stream.content.as_slice()) },
                )
            },
            Object::Reference(id) => Object::Reference(*id),
        }
    }
}

impl Clone for Dictionary {
    /// A deep copy: the same entries in the same order.
    fn clone(&self) -> (r: Dictionary)
        ensures
            r@ == self@,
        decreases self, 0int,
    {
        let mut out: Vec<(Vec<u8>, Object)> = Vec::new();
        let mut i: usize = 0;
        while i < self.entries.len()
            invariant
                0 <= i <= self.entries.len(),
                out.len() == i,
                forall|j: int|
                    0 <= j < i ==> out@[j].0@ == self.entries@[j].0@ && out@[j].1@
                        == self.entries@[j].1@,
            decreases self.entries.len() - i,
        {
            proof {
                assert(decreases_to!(*self => self.entries));
                assert(decreases_to!(self.entries => self.entries[i as int]));
                assert(decreases_to!(self.entries[i as int] => self.entries[i as int].1));
            }
            let key = bytes_clone(self.entries[i].0.as_slice());
            let value = self.entries[i].1.clone();
            out.push((key, value));
            i += 1;
        }
        assert(entries_model(out@) =~= entries_model(self.entries@));
        Dictionary { entries: out }
    }
}

impl Dictionary {
    /// A dictionary without entries.
    pub fn new() -> (r: Dictionary)
        ensures
            r@ == Seq::<(Seq<u8>, ObjectModel)>::empty(),
    {
        let r = Dictionary { entries: Vec::new() };
        assert(r@ =~= Seq::<(Seq<u8>, ObjectModel)>::empty());
        r
    }

    /// The number of entries.
    pub fn len(&self) -> (n: usize)
        ensures
            n == self@.len(),
    {
        self.entries.len()
    }

    /// The place of the first entry under `key`.
    pub fn position(&self, key: &[u8]) -> (r: Option<usize>)
        ensures
            match r {
                Some(i) => dict_first(self@, key@, i as int),
                None => !dict_has(self@, key@),
            },
    {
        let mut i: usize = 0;
        while i < self.entries.len()
            invariant
                0 <= i <= self.entries.len(),
                forall|j: int| 0 <= j < i ==> self@[j].0 != key@,
            decreases self.entries.len() - i,
        {
            if bytes_eq(self.entries[i].0.as_slice(), key) {
                assert(self@[i as int].0 == key@);
                return Some(i);
            }
            assert(self@[i as int].0 != key@);
            i += 1;
        }
        proof {
            lemma_dict_absent(self@, key@);
        }
        None
    }

    /// Whether there is an entry under `key`.
    pub fn has(&self, key: &[u8]) -> (r: bool)
        ensures
            r == dict_has(self@, key@),
    {
        let found = self.position(key);
        proof {
            if let Some(i) = found {
                lemma_dict_first_unique(self@, key@, i as int);
            }
        }
        found.is_some()
    }

    /// The value stored under `key`.
    pub fn get(&self, key: &[u8]) -> (r: Option<&Object>)
        ensures
            match r {
                Some(value) => dict_get(self@, key@) == Some(value@),
                None => dict_get(self@, key@) is None,
            },
    {
        match self.position(key) {
            Some(i) => {
                proof {
                    lemma_dict_first_unique(self@, key@, i as int);
                }
                Some(&self.entries[i].1)
            },
            None => None,
        }
    }

    /// Stores `value` under `key`, in place of what was there.
    pub fn set(&mut self, key: Vec<u8>, value: Object)
        ensures
            final(self)@ == dict_set(old(self)@, key@, value@),
    {
        let ghost before = self@;
        match self.position(key.as_slice()) {
            Some(i) => {
                proof {
                    lemma_dict_first_unique(before, key@, i as int);
                }
                self.entries.set(i, (key, value));
                assert(self@ =~= dict_set(before, key@, value@));
            },
            None => {
                self.entries.push((key, value));
                assert(self@ =~= dict_set(before, key@, value@));
            },
        }
    }
}

} // verus!
