//! The graph copier: deep-copies the objects reachable from an entry point
//! out of one table into another, under fresh identifiers, with every
//! reference rewritten. A memo of old to new identifiers, filled in before
//! an object's references are followed, makes cycles safe and keeps shared
//! objects shared.

use crate::graph::{
    avoiding_path, closed_from, lemma_reached_root, lemma_reached_through, lemma_reached_weaken,
    lemma_remap_refs, lemma_remap_refs_only, lemma_remap_stable, reached, refs, remap, submap,
    IdMap, TableModel,
};
use crate::object::{bytes_clone, items_model, Dictionary, Object, ObjectId, ObjectModel, Stream};
use crate::table::{NotFound, ObjectTable};
use std::collections::BTreeMap;
use vstd::prelude::*;
use vstd::set_lib::lemma_len_subset;

verus! {

/// `id` is renamed by `after` and was not yet by `before`.
pub open spec fn newly_mapped(before: IdMap, after: IdMap, id: ObjectId) -> bool {
    after.contains_key(id) && !before.contains_key(id)
}

/// The destination `d1` and memo `m1` come from `d0` and `m0` by copying
/// objects of `source`: what was there is unchanged; every newly renamed
/// identifier names a present object of `source`, whose copy stands under a
/// fresh identifier with all its references renamed and covered by the
/// memo; nothing else was added; and no two objects share a copy.
pub open spec fn copied(
    source: TableModel,
    d0: TableModel,
    m0: IdMap,
    d1: TableModel,
    m1: IdMap,
) -> bool {
    &&& submap(m0, m1)
    &&& submap(d0, d1)
    &&& forall|o: ObjectId| #[trigger]
        newly_mapped(m0, m1, o) ==> {
            &&& source.contains_key(o)
            &&& !d0.contains_key(m1[o])
            &&& d1.contains_key(m1[o])
            &&& d1[m1[o]] == remap(source[o], m1)
            &&& refs(source[o]).subset_of(m1.dom())
        }
    &&& forall|k: ObjectId|
        d1.contains_key(k) && !d0.contains_key(k) ==> exists|o: ObjectId| #[trigger]
            newly_mapped(m0, m1, o) && m1[o] == k
    &&& forall|a: ObjectId, b: ObjectId|
        #[trigger] newly_mapped(m0, m1, a) && #[trigger] newly_mapped(m0, m1, b) && m1[a] == m1[b]
            ==> a == b
}

/// A copy that started from `roots`: `copied`, the memo still names objects
/// of `source` only, each new object took one identifier, and every newly
/// copied object is reached from `roots` clear of what the memo held.
pub open spec fn copy_done(
    source: TableModel,
    roots: Set<ObjectId>,
    d0: TableModel,
    m0: IdMap,
    max0: int,
    d1: TableModel,
    m1: IdMap,
    max1: int,
) -> bool {
    &&& copied(source, d0, m0, d1, m1)
    &&& m1.dom().subset_of(source.dom())
    &&& max1 - m1.dom().len() == max0 - m0.dom().len()
    &&& forall|o: ObjectId| #[trigger]
        newly_mapped(m0, m1, o) ==> reached(source, m0.dom(), roots, o)
}

/// A copy that failed on `missing`: a dangling reference, reached from
/// `roots` clear of what the memo held.
pub open spec fn copy_failed(
    source: TableModel,
    roots: Set<ObjectId>,
    m0: IdMap,
    missing: ObjectId,
) -> bool {
    !source.contains_key(missing) && reached(source, m0.dom(), roots, missing)
}

/// Nothing copied is a copy.
pub proof fn lemma_copy_none(
    source: TableModel,
    roots: Set<ObjectId>,
    d0: TableModel,
    m0: IdMap,
    max0: int,
)
    requires
        m0.dom().subset_of(source.dom()),
    ensures
        copy_done(source, roots, d0, m0, max0, d0, m0, max0),
{
}

/// A copy from few roots is a copy from more.
pub proof fn lemma_copy_more_roots(
    source: TableModel,
    roots: Set<ObjectId>,
    more: Set<ObjectId>,
    d0: TableModel,
    m0: IdMap,
    max0: int,
    d1: TableModel,
    m1: IdMap,
    max1: int,
)
    requires
        copy_done(source, roots, d0, m0, max0, d1, m1, max1),
        roots.subset_of(more),
    ensures
        copy_done(source, more, d0, m0, max0, d1, m1, max1),
{
    assert forall|o: ObjectId| #[trigger] newly_mapped(m0, m1, o) implies reached(
        source,
        m0.dom(),
        more,
        o,
    ) by {
        lemma_reached_weaken(source, m0.dom(), roots, m0.dom(), more, o);
    }
}

/// One copy after another is a copy.
pub proof fn lemma_copy_then(
    source: TableModel,
    roots: Set<ObjectId>,
    d0: TableModel,
    m0: IdMap,
    max0: int,
    d1: TableModel,
    m1: IdMap,
    max1: int,
    d2: TableModel,
    m2: IdMap,
    max2: int,
)
    requires
        copy_done(source, roots, d0, m0, max0, d1, m1, max1),
        copy_done(source, roots, d1, m1, max1, d2, m2, max2),
    ensures
        copy_done(source, roots, d0, m0, max0, d2, m2, max2),
{
    assert forall|o: ObjectId| #[trigger] newly_mapped(m0, m2, o) implies {
        &&& source.contains_key(o)
        &&& !d0.contains_key(m2[o])
        &&& d2.contains_key(m2[o])
        &&& d2[m2[o]] == remap(source[o], m2)
        &&& refs(source[o]).subset_of(m2.dom())
        &&& reached(source, m0.dom(), roots, o)
    } by {
        if m1.contains_key(o) {
            assert(newly_mapped(m0, m1, o));
            assert(m2[o] == m1[o]);
            lemma_remap_stable(source[o], m1, m2);
            assert(d1.dom().contains(m1[o]));
            assert(d1[m1[o]] == remap(source[o], m1));
            assert(d2[m1[o]] == d1[m1[o]]);
            assert(remap(source[o], m1) == remap(source[o], m2));
            assert(d2[m2[o]] == remap(source[o], m2));
        } else {
            assert(newly_mapped(m1, m2, o));
            lemma_reached_weaken(source, m1.dom(), roots, m0.dom(), roots, o);
            assert(!d1.dom().contains(m2[o]));
            assert(!d0.dom().contains(m2[o]));
        }
        assert(source.contains_key(o));
        assert(!d0.contains_key(m2[o]));
        assert(d2.contains_key(m2[o]));
        assert(d2[m2[o]] == remap(source[o], m2));
        assert(refs(source[o]).subset_of(m2.dom()));
        assert(reached(source, m0.dom(), roots, o));
    }
    assert forall|k: ObjectId| d2.contains_key(k) && !d0.contains_key(k) implies exists|
        o: ObjectId,
    | #[trigger] newly_mapped(m0, m2, o) && m2[o] == k by {
        if d1.contains_key(k) {
            let o = choose|o: ObjectId| #[trigger] newly_mapped(m0, m1, o) && m1[o] == k;
            assert(newly_mapped(m0, m2, o));
        } else {
            let o = choose|o: ObjectId| #[trigger] newly_mapped(m1, m2, o) && m2[o] == k;
            assert(newly_mapped(m0, m2, o));
        }
    }
    assert forall|a: ObjectId, b: ObjectId|
        #[trigger] newly_mapped(m0, m2, a) && #[trigger] newly_mapped(m0, m2, b) && m2[a] == m2[b]
        implies a == b by {
        if m1.contains_key(a) {
            assert(newly_mapped(m0, m1, a));
        } else {
            assert(newly_mapped(m1, m2, a));
        }
        if m1.contains_key(b) {
            assert(newly_mapped(m0, m1, b));
        } else {
            assert(newly_mapped(m1, m2, b));
        }
    }
    assert(submap(m0, m2));
    assert(submap(d0, d2));
}

/// An object whose references were all copied, stored under the
/// identifier reserved for it, completes the copy of that object.
pub proof fn lemma_copy_node(
    source: TableModel,
    id: ObjectId,
    new_id: ObjectId,
    d0: TableModel,
    m0: IdMap,
    max0: int,
    d2: TableModel,
    m2: IdMap,
    max2: int,
)
    requires
        m0.dom().finite(),
        m0.dom().subset_of(source.dom()),
        source.contains_key(id),
        !m0.contains_key(id),
        !d0.contains_key(new_id),
        copy_done(
            source,
            refs(source[id]),
            d0.insert(new_id, ObjectModel::Null),
            m0.insert(id, new_id),
            max0 + 1,
            d2,
            m2,
            max2,
        ),
        refs(source[id]).subset_of(m2.dom()),
    ensures
        copy_done(
            source,
            set![id],
            d0,
            m0,
            max0,
            d2.insert(new_id, remap(source[id], m2)),
            m2,
            max2,
        ),
        m2.contains_key(id),
        m2[id] == new_id,
{
    let d1 = d0.insert(new_id, ObjectModel::Null);
    let m1 = m0.insert(id, new_id);
    let d3 = d2.insert(new_id, remap(source[id], m2));
    assert(m1.contains_key(id));
    assert(d1.contains_key(new_id));
    assert(m1.dom() =~= m0.dom().insert(id));
    assert forall|o: ObjectId| #[trigger] newly_mapped(m0, m2, o) implies {
        &&& source.contains_key(o)
        &&& !d0.contains_key(m2[o])
        &&& d3.contains_key(m2[o])
        &&& d3[m2[o]] == remap(source[o], m2)
        &&& refs(source[o]).subset_of(m2.dom())
        &&& reached(source, m0.dom(), set![id], o)
    } by {
        if o == id {
            lemma_reached_root(source, m0.dom(), set![id], id);
        } else {
            assert(newly_mapped(m1, m2, o));
            assert(!d1.contains_key(m2[o]));
            lemma_reached_weaken(source, m1.dom(), refs(source[id]), m0.dom(), refs(source[id]), o);
            lemma_reached_through(source, m0.dom(), id, o);
        }
    }
    assert forall|k: ObjectId| d3.contains_key(k) && !d0.contains_key(k) implies exists|
        o: ObjectId,
    | #[trigger] newly_mapped(m0, m2, o) && m2[o] == k by {
        if k == new_id {
            assert(newly_mapped(m0, m2, id));
        } else {
            let o = choose|o: ObjectId| #[trigger] newly_mapped(m1, m2, o) && m2[o] == k;
            assert(newly_mapped(m0, m2, o));
        }
    }
    assert forall|a: ObjectId, b: ObjectId|
        #[trigger] newly_mapped(m0, m2, a) && #[trigger] newly_mapped(m0, m2, b) && m2[a] == m2[b]
        implies a == b by {
        if a != id {
            assert(newly_mapped(m1, m2, a));
            assert(!d1.contains_key(m2[a]));
        }
        if b != id {
            assert(newly_mapped(m1, m2, b));
            assert(!d1.contains_key(m2[b]));
        }
    }
    assert(submap(m0, m1));
    assert(submap(m0, m2));
    assert(submap(d0, d1));
    assert forall|k: ObjectId| #[trigger] d0.contains_key(k) implies d3.contains_key(k) && d3[k]
        == d0[k] by {
        assert(k != new_id);
        assert(d1.contains_key(k));
    }
}

/// A memo that names objects of the source only, and lacks one of them,
/// is smaller than the source.
pub proof fn lemma_memo_room(source: TableModel, memo: IdMap, id: ObjectId)
    requires
        source.dom().finite(),
        memo.dom().subset_of(source.dom()),
        source.contains_key(id),
        !memo.contains_key(id),
    ensures
        memo.dom().finite(),
        memo.dom().len() + 1 <= source.dom().len(),
        memo.dom().insert(id).len() == memo.dom().len() + 1,
{
    vstd::set_lib::lemma_set_subset_finite(source.dom(), memo.dom());
    lemma_len_subset(memo.dom().insert(id), source.dom());
}

/// A memo that grew has not shrunk.
pub proof fn lemma_memo_grew(source: TableModel, m0: IdMap, m1: IdMap)
    requires
        source.dom().finite(),
        submap(m0, m1),
        m1.dom().subset_of(source.dom()),
    ensures
        m0.dom().len() <= m1.dom().len(),
        m1.dom().len() <= source.dom().len(),
{
    vstd::set_lib::lemma_set_subset_finite(source.dom(), m1.dom());
    lemma_len_subset(m0.dom(), m1.dom());
    lemma_len_subset(m1.dom(), source.dom());
}

/// Copies the object under `id`, unless the memo already names its copy:
/// reserves a fresh identifier, records it, copies what the object refers
/// to, then stores the rewritten object.
fn copy_node(
    source: &ObjectTable,
    id: ObjectId,
    dst: &mut ObjectTable,
    memo: &mut BTreeMap<ObjectId, ObjectId>,
) -> (r: Result<ObjectId, NotFound>)
    requires
        old(memo)@.dom().subset_of(source@.dom()),
        old(dst).max_id() + source@.dom().len() - old(memo)@.dom().len() <= u32::MAX,
    ensures
        match r {
            Ok(new_id) => {
                &&& copy_done(
                    source@,
                    set![id],
                    old(dst)@,
                    old(memo)@,
                    old(dst).max_id() as int,
                    final(dst)@,
                    final(memo)@,
                    final(dst).max_id() as int,
                )
                &&& final(memo)@.contains_key(id)
                &&& final(memo)@[id] == new_id
                &&& old(memo)@.contains_key(id) ==> final(dst)@ == old(dst)@ && final(memo)@ == old(
                    memo,
                )@
                &&& !old(memo)@.contains_key(id) ==> new_id == (
                    ((old(dst).max_id() + 1) as u32, 0u16)
                )
            },
            Err(e) => copy_failed(source@, set![id], old(memo)@, e.id),
        },
    decreases source@.dom().len() - old(memo)@.dom().len(), 0int,
{
    let ghost d0 = dst@;
    let ghost m0 = memo@;
    let ghost max0 = dst.max_id() as int;
    proof {
        source.lemma_finite();
    }
    match memo.get(&id) {
        Some(known) => {
            let known = *known;
            proof {
                lemma_copy_none(source@, set![id], d0, m0, max0);
            }
            return Ok(known);
        },
        None => {},
    }
    let object = match source.get(id) {
        Ok(object) => object,
        Err(e) => {
            proof {
                lemma_reached_root(source@, m0.dom(), set![id], id);
            }
            return Err(e);
        },
    };
    proof {
        lemma_memo_room(source@, m0, id);
    }
    let new_id = dst.allocate(Object::Null);
    memo.insert(id, new_id);
    let ghost m1 = memo@;
    proof {
        assert(m1.dom() =~= m0.dom().insert(id));
    }
    let rewritten = match copy_value(source, object, dst, memo) {
        Ok(rewritten) => rewritten,
        Err(e) => {
            proof {
                lemma_reached_weaken(
                    source@,
                    m1.dom(),
                    refs(source@[id]),
                    m0.dom(),
                    refs(source@[id]),
                    e.id,
                );
                lemma_reached_through(source@, m0.dom(), id, e.id);
            }
            return Err(e);
        },
    };
    proof {
        lemma_memo_grew(source@, m1, memo@);
        lemma_copy_node(
            source@,
            id,
            new_id,
            d0,
            m0,
            max0,
            dst@,
            memo@,
            dst.max_id() as int,
        );
    }
    dst.set(new_id, rewritten);
    Ok(new_id)
}

/// A copy of `object` in which every reference names the copy of what it
/// referred to, those copies made on the way.
fn copy_value(
    source: &ObjectTable,
    object: &Object,
    dst: &mut ObjectTable,
    memo: &mut BTreeMap<ObjectId, ObjectId>,
) -> (r: Result<Object, NotFound>)
    requires
        old(memo)@.dom().subset_of(source@.dom()),
        old(dst).max_id() + source@.dom().len() - old(memo)@.dom().len() <= u32::MAX,
    ensures
        match r {
            Ok(out) => {
                &&& copy_done(
                    source@,
                    refs(object@),
                    old(dst)@,
                    old(memo)@,
                    old(dst).max_id() as int,
                    final(dst)@,
                    final(memo)@,
                    final(dst).max_id() as int,
                )
                &&& out@ == remap(object@, final(memo)@)
                &&& refs(object@).subset_of(final(memo)@.dom())
            },
            Err(e) => copy_failed(source@, refs(object@), old(memo)@, e.id),
        },
    decreases source@.dom().len() - old(memo)@.dom().len(), 1int, object,
{
    let ghost d0 = dst@;
    let ghost m0 = memo@;
    let ghost max0 = dst.max_id() as int;
    match object {
        Object::Reference(target) => {
            proof {
                assert(refs(object@) =~= set![*target]);
            }
            match copy_node(source, *target, dst, memo) {
                Ok(new_id) => Ok(Object::Reference(new_id)),
                Err(e) => Err(e),
            }
        },
        Object::Array(items) => {
            proof {
                assert(decreases_to!(*object => object->Array_0));
            }
            match copy_items(source, items, dst, memo) {
                Ok(out) => Ok(Object::Array(out)),
                Err(e) => Err(e),
            }
        },
        Object::Dictionary(dict) => {
            proof {
                assert(decreases_to!(*object => object->Dictionary_0));
            }
            match copy_entries(source, dict, dst, memo) {
                Ok(out) => Ok(Object::Dictionary(out)),
                Err(e) => Err(e),
            }
        },
        Object::Stream(stream) => {
            proof {
                assert(decreases_to!(*object => object->Stream_0));
                assert(decreases_to!(*stream => stream.dict));
                assert(refs(object@) =~= refs(ObjectModel::Dictionary(stream.dict@)));
            }
            match copy_entries(source, &stream.dict, dst, memo) {
                Ok(out) => {
                    let content = bytes_clone(stream.content.as_slice());
                    proof {
                        assert(remap(object@, memo@)->Stream_0 =~= remap(
                            ObjectModel::Dictionary(stream.dict@),
                            memo@,
                        )->Dictionary_0);
                    }
                    Ok(Object::Stream(Stream { dict: out, content }))
                },
                Err(e) => Err(e),
            }
        },
        _ => {
            proof {
                lemma_copy_none(source@, refs(object@), d0, m0, max0);
            }
            Ok(object.clone())
        },
    }
}

/// Copies of `items`, one by one and in order.
fn copy_items(
    source: &ObjectTable,
    items: &Vec<Object>,
    dst: &mut ObjectTable,
    memo: &mut BTreeMap<ObjectId, ObjectId>,
) -> (r: Result<Vec<Object>, NotFound>)
    requires
        old(memo)@.dom().subset_of(source@.dom()),
        old(dst).max_id() + source@.dom().len() - old(memo)@.dom().len() <= u32::MAX,
    ensures
        match r {
            Ok(out) => {
                &&& copy_done(
                    source@,
                    refs(ObjectModel::Array(items_model(items@))),
                    old(dst)@,
                    old(memo)@,
                    old(dst).max_id() as int,
                    final(dst)@,
                    final(memo)@,
                    final(dst).max_id() as int,
                )
                &&& ObjectModel::Array(items_model(out@)) == remap(
                    ObjectModel::Array(items_model(items@)),
                    final(memo)@,
                )
                &&& refs(ObjectModel::Array(items_model(items@))).subset_of(final(memo)@.dom())
            },
            Err(e) => copy_failed(
                source@,
                refs(ObjectModel::Array(items_model(items@))),
                old(memo)@,
                e.id,
            ),
        },
    decreases source@.dom().len() - old(memo)@.dom().len(), 1int, items,
{
    let ghost d0 = dst@;
    let ghost m0 = memo@;
    let ghost max0 = dst.max_id() as int;
    let ghost whole = ObjectModel::Array(items_model(items@));
    let mut out: Vec<Object> = Vec::new();
    let mut i: usize = 0;
    proof {
        source.lemma_finite();
        lemma_copy_none(source@, refs(whole), d0, m0, max0);
        lemma_memo_grew(source@, m0, m0);
    }
    while i < items.len()
        invariant
            0 <= i <= items.len(),
            out.len() == i,
            whole == ObjectModel::Array(items_model(items@)),
            source@.dom().finite(),
            dst.max_id() + source@.dom().len() - memo@.dom().len() <= u32::MAX,
            copy_done(source@, refs(whole), d0, m0, max0, dst@, memo@, dst.max_id() as int),
            forall|j: int|
                0 <= j < i ==> (#[trigger] out@[j])@ == remap(items@[j]@, memo@) && refs(
                    items@[j]@,
                ).subset_of(memo@.dom()),
            m0 == old(memo)@,
            m0.dom().len() <= memo@.dom().len(),
            memo@.dom().len() <= source@.dom().len(),
        decreases items.len() - i,
    {
        let ghost da = dst@;
        let ghost ma = memo@;
        let ghost maxa = dst.max_id() as int;
        let ghost part = refs(items@[i as int]@);
        proof {
            assert(items_model(items@)[i as int] == items@[i as int]@);
            assert(part.subset_of(refs(whole)));
            assert(decreases_to!(items => items[i as int]));
        }
        match copy_value(source, &items[i], dst, memo) {
            Ok(item) => {
                proof {
                    lemma_copy_more_roots(
                        source@,
                        part,
                        refs(whole),
                        da,
                        ma,
                        maxa,
                        dst@,
                        memo@,
                        dst.max_id() as int,
                    );
                    lemma_copy_then(
                        source@,
                        refs(whole),
                        d0,
                        m0,
                        max0,
                        da,
                        ma,
                        maxa,
                        dst@,
                        memo@,
                        dst.max_id() as int,
                    );
                    lemma_memo_grew(source@, ma, memo@);
                    assert forall|j: int| 0 <= j < i implies (#[trigger] out@[j])@ == remap(
                        items@[j]@,
                        memo@,
                    ) && refs(items@[j]@).subset_of(memo@.dom()) by {
                        lemma_remap_stable(items@[j]@, ma, memo@);
                    }
                }
                out.push(item);
                i += 1;
            },
            Err(e) => {
                proof {
                    lemma_reached_weaken(source@, ma.dom(), part, m0.dom(), refs(whole), e.id);
                }
                return Err(e);
            },
        }
    }
    proof {
        assert(items_model(out@) =~= remap(whole, memo@)->Array_0) by {
            assert forall|j: int| 0 <= j < out@.len() implies items_model(out@)[j] == remap(
                whole,
                memo@,
            )->Array_0[j] by {
                assert(items_model(items@)[j] == items@[j]@);
                assert(out@[j]@ == remap(items@[j]@, memo@));
            }
        }
        assert forall|r: ObjectId| refs(whole).contains(r) implies memo@.dom().contains(r) by {
            let j = choose|j: int|
                0 <= j < items_model(items@).len() && refs(#[trigger] items_model(items@)[j]).contains(r);
            assert(items_model(items@)[j] == items@[j]@);
            assert(out@[j]@ == remap(items@[j]@, memo@));
            assert(refs(items@[j]@).subset_of(memo@.dom()));
        }
    }
    Ok(out)
}

/// A copy of `dict`: the same keys in the same order, each value copied.
fn copy_entries(
    source: &ObjectTable,
    dict: &Dictionary,
    dst: &mut ObjectTable,
    memo: &mut BTreeMap<ObjectId, ObjectId>,
) -> (r: Result<Dictionary, NotFound>)
    requires
        old(memo)@.dom().subset_of(source@.dom()),
        old(dst).max_id() + source@.dom().len() - old(memo)@.dom().len() <= u32::MAX,
    ensures
        match r {
            Ok(out) => {
                &&& copy_done(
                    source@,
                    refs(ObjectModel::Dictionary(dict@)),
                    old(dst)@,
                    old(memo)@,
                    old(dst).max_id() as int,
                    final(dst)@,
                    final(memo)@,
                    final(dst).max_id() as int,
                )
                &&& ObjectModel::Dictionary(out@) == remap(
                    ObjectModel::Dictionary(dict@),
                    final(memo)@,
                )
                &&& refs(ObjectModel::Dictionary(dict@)).subset_of(final(memo)@.dom())
            },
            Err(e) => copy_failed(source@, refs(ObjectModel::Dictionary(dict@)), old(memo)@, e.id),
        },
    decreases source@.dom().len() - old(memo)@.dom().len(), 1int, dict,
{
    let ghost d0 = dst@;
    let ghost m0 = memo@;
    let ghost max0 = dst.max_id() as int;
    let ghost whole = ObjectModel::Dictionary(dict@);
    let mut out: Vec<(Vec<u8>, Object)> = Vec::new();
    let mut i: usize = 0;
    proof {
        source.lemma_finite();
        lemma_copy_none(source@, refs(whole), d0, m0, max0);
        lemma_memo_grew(source@, m0, m0);
    }
    while i < dict.entries.len()
        invariant
            0 <= i <= dict.entries.len(),
            out.len() == i,
            whole == ObjectModel::Dictionary(dict@),
            source@.dom().finite(),
            dst.max_id() + source@.dom().len() - memo@.dom().len() <= u32::MAX,
            copy_done(source@, refs(whole), d0, m0, max0, dst@, memo@, dst.max_id() as int),
            forall|j: int|
                0 <= j < i ==> {
                    &&& (#[trigger] out@[j]).0@ == dict.entries@[j].0@
                    &&& out@[j].1@ == remap(dict.entries@[j].1@, memo@)
                    &&& refs(dict.entries@[j].1@).subset_of(memo@.dom())
                },
            m0 == old(memo)@,
            m0.dom().len() <= memo@.dom().len(),
            memo@.dom().len() <= source@.dom().len(),
        decreases dict.entries.len() - i,
    {
        let ghost da = dst@;
        let ghost ma = memo@;
        let ghost maxa = dst.max_id() as int;
        let ghost part = refs(dict.entries@[i as int].1@);
        proof {
            assert(dict@[i as int].1 == dict.entries@[i as int].1@);
            assert(part.subset_of(refs(whole)));
            assert(decreases_to!(*dict => dict.entries));
            assert(decreases_to!(dict.entries => dict.entries[i as int]));
            assert(decreases_to!(dict.entries[i as int] => dict.entries[i as int].1));
        }
        match copy_value(source, &dict.entries[i].1, dst, memo) {
            Ok(value) => {
                proof {
                    lemma_copy_more_roots(
                        source@,
                        part,
                        refs(whole),
                        da,
                        ma,
                        maxa,
                        dst@,
                        memo@,
                        dst.max_id() as int,
                    );
                    lemma_copy_then(
                        source@,
                        refs(whole),
                        d0,
                        m0,
                        max0,
                        da,
                        ma,
                        maxa,
                        dst@,
                        memo@,
                        dst.max_id() as int,
                    );
                    lemma_memo_grew(source@, ma, memo@);
                    assert forall|j: int| 0 <= j < i implies {
                        &&& (#[trigger] out@[j]).0@ == dict.entries@[j].0@
                        &&& out@[j].1@ == remap(dict.entries@[j].1@, memo@)
                        &&& refs(dict.entries@[j].1@).subset_of(memo@.dom())
                    } by {
                        lemma_remap_stable(dict.entries@[j].1@, ma, memo@);
                    }
                }
                let key = bytes_clone(dict.entries[i].0.as_slice());
                out.push((key, value));
                i += 1;
            },
            Err(e) => {
                proof {
                    lemma_reached_weaken(source@, ma.dom(), part, m0.dom(), refs(whole), e.id);
                }
                return Err(e);
            },
        }
    }
    let copy = Dictionary { entries: out };
    proof {
        assert(copy@ =~= remap(whole, memo@)->Dictionary_0) by {
            assert forall|j: int| 0 <= j < copy@.len() implies copy@[j] == remap(
                whole,
                memo@,
            )->Dictionary_0[j] by {
                assert(dict@[j] == (dict.entries@[j].0@, dict.entries@[j].1@));
                assert(out@[j].1@ == remap(dict.entries@[j].1@, memo@));
            }
        }
        assert forall|r: ObjectId| refs(whole).contains(r) implies memo@.dom().contains(r) by {
            let j = choose|j: int| 0 <= j < dict@.len() && refs((#[trigger] dict@[j]).1).contains(r);
            assert(dict@[j].1 == dict.entries@[j].1@);
            assert(out@[j].0@ == dict.entries@[j].0@);
            assert(refs(dict.entries@[j].1@).subset_of(memo@.dom()));
        }
    }
    Ok(copy)
}

/// A finished copy holds every object that a chain of references reaches
/// from its roots clear of what the memo held before.
pub proof fn lemma_copy_covers(
    source: TableModel,
    roots: Set<ObjectId>,
    d0: TableModel,
    m0: IdMap,
    d1: TableModel,
    m1: IdMap,
    path: Seq<ObjectId>,
    i: int,
)
    requires
        copied(source, d0, m0, d1, m1),
        roots.subset_of(m1.dom()),
        avoiding_path(source, m0.dom(), path),
        roots.contains(path.first()),
        0 <= i < path.len(),
    ensures
        newly_mapped(m0, m1, path[i]),
    decreases i,
{
    if i > 0 {
        lemma_copy_covers(source, roots, d0, m0, d1, m1, path, i - 1);
        assert(newly_mapped(m0, m1, path[i - 1]));
        assert(refs(source[path[i - 1]]).contains(path[i - 1 + 1]));
    }
}

/// Copies into `new_doc` the object of `doc` under `object_id` and all that
/// it refers to, directly or through other objects, and returns the
/// identifier of the copy. `copied_objects` maps the identifiers of `doc`
/// that were copied so far to those of their copies: an object that it
/// names is not copied again, and its copy stands for it in every
/// reference. The copy fails on a reference to an absent object.
pub fn deep_copy_object(
    doc: &ObjectTable,
    object_id: ObjectId,
    new_doc: &mut ObjectTable,
    copied_objects: &mut BTreeMap<ObjectId, ObjectId>,
) -> (r: Result<ObjectId, NotFound>)
    requires
        old(copied_objects)@.dom().subset_of(doc@.dom()),
        old(new_doc).max_id() + doc@.dom().len() - old(copied_objects)@.dom().len() <= u32::MAX,
    ensures
        r is Ok <==> closed_from(doc@, old(copied_objects)@.dom(), set![object_id]),
        match r {
            Ok(new_id) => {
                &&& copy_done(
                    doc@,
                    set![object_id],
                    old(new_doc)@,
                    old(copied_objects)@,
                    old(new_doc).max_id() as int,
                    final(new_doc)@,
                    final(copied_objects)@,
                    final(new_doc).max_id() as int,
                )
                &&& final(copied_objects)@.contains_key(object_id)
                &&& final(copied_objects)@[object_id] == new_id
                &&& forall|o: ObjectId|
                    newly_mapped(old(copied_objects)@, final(copied_objects)@, o) <==> #[trigger] reached(
                        doc@,
                        old(copied_objects)@.dom(),
                        set![object_id],
                        o,
                    )
                &&& old(copied_objects)@.contains_key(object_id) ==> final(new_doc)@ == old(
                    new_doc,
                )@ && final(copied_objects)@ == old(copied_objects)@
                &&& !old(copied_objects)@.contains_key(object_id) ==> new_id == (
                    ((old(new_doc).max_id() + 1) as u32, 0u16)
                )
            },
            Err(e) => copy_failed(doc@, set![object_id], old(copied_objects)@, e.id),
        },
{
    let ghost d0 = new_doc@;
    let ghost m0 = copied_objects@;
    let r = copy_node(doc, object_id, new_doc, copied_objects);
    proof {
        if r is Ok {
            let d1 = new_doc@;
            let m1 = copied_objects@;
            assert forall|o: ObjectId| #[trigger]
                reached(doc@, m0.dom(), set![object_id], o) implies newly_mapped(m0, m1, o)
                && doc@.contains_key(o) by {
                let path = choose|path: Seq<ObjectId>|
                    #[trigger] avoiding_path(doc@, m0.dom(), path) && set![object_id].contains(
                        path.first(),
                    ) && path.last() == o;
                lemma_copy_covers(
                    doc@,
                    set![object_id],
                    d0,
                    m0,
                    d1,
                    m1,
                    path,
                    path.len() - 1,
                );
            }
        }
    }
    r
}

/// The copy of an object refers to the copy of each object that the
/// object referred to.
pub proof fn law_references_follow_copies(
    source: TableModel,
    d0: TableModel,
    m0: IdMap,
    d1: TableModel,
    m1: IdMap,
    from: ObjectId,
    to: ObjectId,
)
    requires
        copied(source, d0, m0, d1, m1),
        newly_mapped(m0, m1, from),
        refs(source[from]).contains(to),
    ensures
        m1.contains_key(to),
        refs(d1[m1[from]]).contains(m1[to]),
{
    assert(refs(source[from]).subset_of(m1.dom()));
    lemma_remap_refs(source[from], m1, to);
}

/// Every object that a copy reached has exactly one copy, and every object
/// that the copy added to the destination is the copy of exactly one
/// object.
pub proof fn law_one_copy_of_each_object(
    source: TableModel,
    d0: TableModel,
    m0: IdMap,
    d1: TableModel,
    m1: IdMap,
)
    requires
        copied(source, d0, m0, d1, m1),
    ensures
        forall|o: ObjectId| #[trigger]
            newly_mapped(m0, m1, o) ==> d1.contains_key(m1[o]) && !d0.contains_key(m1[o]),
        forall|k: ObjectId|
            d1.contains_key(k) && !d0.contains_key(k) ==> exists|o: ObjectId| #[trigger]
                newly_mapped(m0, m1, o) && m1[o] == k,
        forall|a: ObjectId, b: ObjectId|
            #[trigger] newly_mapped(m0, m1, a) && #[trigger] newly_mapped(m0, m1, b) && a != b
                ==> m1[a] != m1[b],
{
}

/// Two objects that refer to each other are copied once each, and their
/// copies refer to each other.
pub proof fn law_cycle_is_copied_once(
    source: TableModel,
    d0: TableModel,
    m0: IdMap,
    d1: TableModel,
    m1: IdMap,
    a: ObjectId,
    b: ObjectId,
)
    requires
        copied(source, d0, m0, d1, m1),
        newly_mapped(m0, m1, a),
        newly_mapped(m0, m1, b),
        refs(source[a]).contains(b),
        refs(source[b]).contains(a),
    ensures
        refs(d1[m1[a]]).contains(m1[b]),
        refs(d1[m1[b]]).contains(m1[a]),
        a != b ==> m1[a] != m1[b],
        !d0.contains_key(m1[a]) && !d0.contains_key(m1[b]),
{
    law_references_follow_copies(source, d0, m0, d1, m1, a, b);
    law_references_follow_copies(source, d0, m0, d1, m1, b, a);
}

/// An object that two copied objects share is copied once, and both copies
/// refer to that one copy.
pub proof fn law_shared_object_stays_shared(
    source: TableModel,
    d0: TableModel,
    m0: IdMap,
    d1: TableModel,
    m1: IdMap,
    first: ObjectId,
    second: ObjectId,
    shared: ObjectId,
)
    requires
        copied(source, d0, m0, d1, m1),
        newly_mapped(m0, m1, first),
        newly_mapped(m0, m1, second),
        refs(source[first]).contains(shared),
        refs(source[second]).contains(shared),
    ensures
        refs(d1[m1[first]]).contains(m1[shared]),
        refs(d1[m1[second]]).contains(m1[shared]),
{
    law_references_follow_copies(source, d0, m0, d1, m1, first, shared);
    law_references_follow_copies(source, d0, m0, d1, m1, second, shared);
}

/// What is copied from one source under one memo and what is copied
/// afterwards from another source under another memo share no copy.
pub proof fn law_sources_stay_apart(
    first: TableModel,
    second: TableModel,
    d0: TableModel,
    m0: IdMap,
    d1: TableModel,
    m1: IdMap,
    n0: IdMap,
    d2: TableModel,
    n1: IdMap,
    a: ObjectId,
    b: ObjectId,
)
    requires
        copied(first, d0, m0, d1, m1),
        copied(second, d1, n0, d2, n1),
        newly_mapped(m0, m1, a),
        newly_mapped(n0, n1, b),
    ensures
        m1[a] != n1[b],
        d2.contains_key(m1[a]),
        d2.contains_key(n1[b]),
        d2[m1[a]] == remap(first[a], m1),
        d2[n1[b]] == remap(second[b], n1),
{
    assert(d1.contains_key(m1[a]));
    assert(!d1.contains_key(n1[b]));
}

/// Where the memo held the copies of objects only, no copied object has a
/// dangling reference.
pub proof fn law_copy_has_no_dangling_reference(
    source: TableModel,
    d0: TableModel,
    m0: IdMap,
    d1: TableModel,
    m1: IdMap,
    from: ObjectId,
    to: ObjectId,
)
    requires
        copied(source, d0, m0, d1, m1),
        forall|o: ObjectId| m0.contains_key(o) ==> d0.contains_key(#[trigger] m0[o]),
        newly_mapped(m0, m1, from),
        refs(d1[m1[from]]).contains(to),
    ensures
        d1.contains_key(to),
{
    assert(refs(source[from]).subset_of(m1.dom()));
    lemma_remap_refs_only(source[from], m1, to);
    let o = choose|o: ObjectId| #[trigger] refs(source[from]).contains(o) && m1[o] == to;
    if m0.contains_key(o) {
        assert(d0.contains_key(m0[o]));
        assert(m1[o] == m0[o]);
    } else {
        assert(newly_mapped(m0, m1, o));
    }
}

} // verus!
