//! The object table of a document: the sole owner of its objects, addressed
//! by identifier.

use crate::object::{Object, ObjectId, ObjectModel};
use std::collections::BTreeMap;
use vstd::prelude::*;
use vstd::std_specs::iter::IteratorSpec;

verus! {

/// Owns all objects of one document. Objects are added and overwritten,
/// never removed, and no identifier in the table has a number above
/// [`ObjectTable::max_id`].
pub struct ObjectTable {
    objects: BTreeMap<ObjectId, Object>,
    max_id: u32,
}

/// An identifier under which nothing is stored.
#[derive(Clone, Copy, Debug, PartialEq, Eq)]
pub struct NotFound {
    pub id: ObjectId,
}

/// The order of identifiers: by number, then by generation.
pub open spec fn id_before(a: ObjectId, b: ObjectId) -> bool {
    a.0 < b.0 || (a.0 == b.0 && a.1 < b.1)
}

/// The keys of a map come in the order of identifiers.
proof fn lemma_keys_in_order(keys: Seq<&ObjectId>)
    requires
        vstd::std_specs::btree::increasing_seq(keys),
    ensures
        forall|i: int, j: int| 0 <= i < j < keys.len() ==> id_before(*keys[i], *keys[j]),
{
    broadcast use vstd::std_specs::btree::group_btree_axioms;
    broadcast use vstd::laws_cmp::group_laws_cmp;

    vstd::std_specs::btree::axiom_increasing_seq_meaning::<&ObjectId>(keys);
    assert forall|i: int, j: int| 0 <= i < j < keys.len() implies id_before(*keys[i], *keys[j]) by {
        assert(vstd::std_specs::cmp::OrdSpec::cmp_spec(&keys[i], &keys[j]) is Less);
    }
}

/// Hands out the value under a key for change in place, with
/// `BTreeMap::get_mut` of std: the value is the one that the map holds
/// under the key, and the map ends up with whatever the caller leaves in
/// it, under the same key; a key that the map lacks gives nothing and
/// leaves the map as it is.
#[verifier::external_body]
fn value_mut<'a>(map: &'a mut BTreeMap<ObjectId, Object>, id: ObjectId) -> (r: Option<
    &'a mut Object,
>)
    ensures
        match r {
            Some(object) => old(map)@.contains_key(id) && *object == old(map)@[id] && final(map)@
                == old(map)@.insert(id, *final(object)),
            None => !old(map)@.contains_key(id) && final(map)@ == old(map)@,
        },
    no_unwind
{
    map.get_mut(&id)
}

impl View for ObjectTable {
    type V = Map<ObjectId, ObjectModel>;

    closed spec fn view(&self) -> Map<ObjectId, ObjectModel> {
        Map::new(|id: ObjectId| self.objects@.contains_key(id), |id: ObjectId| self.objects@[id]@)
    }
}

impl ObjectTable {
    #[verifier::type_invariant]
    spec fn bounded(&self) -> bool {
        forall|id: ObjectId| self.objects@.contains_key(id) ==> id.0 <= self.max_id
    }

    /// The largest object number that was handed out or stored.
    pub closed spec fn spec_max_id(&self) -> u32 {
        self.max_id
    }

    /// A table is finite.
    pub proof fn lemma_finite(&self)
        ensures
            self@.dom().finite(),
    {
        assert(self@.dom() =~= self.objects@.dom());
    }

    /// An empty table.
    pub fn new() -> (table: ObjectTable)
        ensures
            table@ == Map::<ObjectId, ObjectModel>::empty(),
            table.spec_max_id() == 0,
    {
        let table = ObjectTable { objects: BTreeMap::new(), max_id: 0 };
        assert(table@ =~= Map::<ObjectId, ObjectModel>::empty());
        table
    }

    /// The largest object number in use; no identifier in the table lies
    /// above it.
    #[verifier::when_used_as_spec(spec_max_id)]
    pub fn max_id(&self) -> (n: u32)
        ensures
            n == self.spec_max_id(),
            forall|id: ObjectId| self@.contains_key(id) ==> id.0 <= n,
    {
        proof {
            use_type_invariant(self);
        }
        self.max_id
    }

    /// The number of objects.
    pub fn len(&self) -> (n: usize)
        ensures
            n == self@.dom().len(),
            self@.dom().finite(),
    {
        proof {
            assert(self@.dom() =~= self.objects@.dom());
        }
        self.objects.len()
    }

    /// Whether an object is stored under `id`.
    pub fn contains(&self, id: ObjectId) -> (r: bool)
        ensures
            r == self@.contains_key(id),
    {
        self.objects.contains_key(&id)
    }

    /// The object stored under `id`.
    pub fn get(&self, id: ObjectId) -> (r: Result<&Object, NotFound>)
        ensures
            match r {
                Ok(object) => self@.contains_key(id) && self@[id] == object@,
                Err(e) => !self@.contains_key(id) && e.id == id,
            },
    {
        match self.objects.get(&id) {
            Some(object) => Ok(object),
            None => Err(NotFound { id }),
        }
    }

    /// The object stored under `id`, for change in place.
    pub fn get_mut(&mut self, id: ObjectId) -> (r: Result<&mut Object, NotFound>)
        ensures
            match r {
                Ok(object) => {
                    &&& old(self)@.contains_key(id)
                    &&& object@ == old(self)@[id]
                    &&& final(self)@ == old(self)@.insert(id, final(object)@)
                    &&& final(self).max_id() == old(self).max_id()
                },
                Err(e) => {
                    &&& !old(self)@.contains_key(id)
                    &&& e.id == id
                    &&& final(self)@ == old(self)@
                    &&& final(self).max_id() == old(self).max_id()
                },
            },
    {
        proof {
            use_type_invariant(&*self);
        }
        match value_mut(&mut self.objects, id) {
            Some(object) => Ok(object),
            None => Err(NotFound { id }),
        }
    }

    /// Stores `object` under a fresh identifier: the number after the
    /// largest in use, generation 0.
    pub fn allocate(&mut self, object: Object) -> (id: ObjectId)
        requires
            old(self).max_id() < u32::MAX,
        ensures
            id == (((old(self).max_id() + 1) as u32, 0u16)),
            !old(self)@.contains_key(id),
            final(self)@ == old(self)@.insert(id, object@),
            final(self).max_id() == old(self).max_id() + 1,
    {
        proof {
            use_type_invariant(&*self);
        }
        let ghost before = self@;
        let mut taken = ObjectTable { objects: BTreeMap::new(), max_id: 0 };
        core::mem::swap(self, &mut taken);
        let ObjectTable { objects, max_id } = taken;
        let mut objects = objects;
        let id: ObjectId = (max_id + 1, 0);
        objects.insert(id, object);
        *self = ObjectTable { objects, max_id: max_id + 1 };
        assert(self@ =~= before.insert(id, object@));
        id
    }

    /// Stores `object` under `id`, in place of what was there.
    pub fn set(&mut self, id: ObjectId, object: Object)
        ensures
            final(self)@ == old(self)@.insert(id, object@),
            final(self).max_id() == if id.0 > old(self).max_id() {
                id.0
            } else {
                old(self).max_id()
            },
    {
        proof {
            use_type_invariant(&*self);
        }
        let ghost before = self@;
        let mut taken = ObjectTable { objects: BTreeMap::new(), max_id: 0 };
        core::mem::swap(self, &mut taken);
        let ObjectTable { objects, max_id } = taken;
        let mut objects = objects;
        objects.insert(id, object);
        let max_id = if id.0 > max_id {
            id.0
        } else {
            max_id
        };
        *self = ObjectTable { objects, max_id };
        assert(self@ =~= before.insert(id, object@));
    }

    /// The identifiers in use, each once, in their order.
    pub fn ids(&self) -> (r: Vec<ObjectId>)
        ensures
            r@.no_duplicates(),
            r@.to_set() == self@.dom(),
            forall|i: int, j: int| 0 <= i < j < r@.len() ==> id_before(r@[i], r@[j]),
    {
        let mut out: Vec<ObjectId> = Vec::new();
        let ghost keys = vstd::std_specs::btree::spec_keys_iter(&self.objects).remaining();
        for id in it: self.objects.keys()
            invariant
                it.seq() == keys,
                out@ == keys.take(it.index() as int).unref(),
                keys.unref().to_set() == self.objects@.dom(),
                keys.no_duplicates(),
                vstd::std_specs::btree::increasing_seq(keys),
        {
            out.push(*id);
            assert(out@ =~= keys.take(it.index() + 1).unref());
        }
        proof {
            lemma_keys_in_order(keys);
            assert(keys.take(keys.len() as int) =~= keys);
            assert(self@.dom() =~= self.objects@.dom());
            assert forall|i: int, j: int| 0 <= i < j < out@.len() implies out@[i] != out@[j] by {
                assert(keys[i] != keys[j]);
            }
        }
        out
    }
}

} // verus!
