//! The references that objects hold to each other: which identifiers an
//! object names, what it becomes when identifiers are renamed, and which
//! objects can be reached from which.

use crate::object::{ObjectId, ObjectModel};
use vstd::prelude::*;

verus! {

/// The objects of a table, by identifier.
pub type TableModel = Map<ObjectId, ObjectModel>;

/// A renaming of identifiers.
pub type IdMap = Map<ObjectId, ObjectId>;

/// Every entry of `small` is an entry of `large`.
pub open spec fn submap<K, V>(small: Map<K, V>, large: Map<K, V>) -> bool {
    forall|k: K| #[trigger] small.contains_key(k) ==> large.contains_key(k) && large[k] == small[k]
}

/// The identifiers that `object` refers to, at any depth of nesting.
pub open spec fn refs(object: ObjectModel) -> Set<ObjectId>
    decreases object,
{
    match object {
        ObjectModel::Array(items) => Set::new(
            |r: ObjectId| exists|i: int| 0 <= i < items.len() && refs(#[trigger] items[i]).contains(r),
        ),
        ObjectModel::Dictionary(dict) => Set::new(
            |r: ObjectId| exists|i: int| 0 <= i < dict.len() && refs((#[trigger] dict[i]).1).contains(r),
        ),
        ObjectModel::Stream(dict, _) => Set::new(
            |r: ObjectId| exists|i: int| 0 <= i < dict.len() && refs((#[trigger] dict[i]).1).contains(r),
        ),
        ObjectModel::Reference(id) => set![id],
        _ => Set::empty(),
    }
}

/// `object` with every reference to an identifier that `map` renames
/// replaced by a reference to its new name.
pub open spec fn remap(object: ObjectModel, map: IdMap) -> ObjectModel
    decreases object,
{
    match object {
        ObjectModel::Array(items) => ObjectModel::Array(
            Seq::new(
                items.len(),
                |i: int|
                    if 0 <= i < items.len() {
                        remap(items[i], map)
                    } else {
                        ObjectModel::Null
                    },
            ),
        ),
        ObjectModel::Dictionary(dict) => ObjectModel::Dictionary(
            Seq::new(
                dict.len(),
                |i: int|
                    if 0 <= i < dict.len() {
                        (dict[i].0, remap(dict[i].1, map))
                    } else {
                        (Seq::empty(), ObjectModel::Null)
                    },
            ),
        ),
        ObjectModel::Stream(dict, content) => ObjectModel::Stream(
            Seq::new(
                dict.len(),
                |i: int|
                    if 0 <= i < dict.len() {
                        (dict[i].0, remap(dict[i].1, map))
                    } else {
                        (Seq::empty(), ObjectModel::Null)
                    },
            ),
            content,
        ),
        ObjectModel::Reference(id) => ObjectModel::Reference(
            if map.contains_key(id) {
                map[id]
            } else {
                id
            },
        ),
        _ => object,
    }
}

/// A renaming acts on an object only through the identifiers that the
/// object refers to: a larger renaming gives the same result.
pub proof fn lemma_remap_stable(object: ObjectModel, small: IdMap, large: IdMap)
    requires
        submap(small, large),
        refs(object).subset_of(small.dom()),
    ensures
        remap(object, small) == remap(object, large),
    decreases object,
{
    match object {
        ObjectModel::Array(items) => {
            assert forall|i: int| 0 <= i < items.len() implies remap(items[i], small) == remap(
                items[i],
                large,
            ) by {
                assert(refs(items[i]).subset_of(refs(object)));
                lemma_remap_stable(items[i], small, large);
            }
            assert(remap(object, small)->Array_0 =~= remap(object, large)->Array_0);
        },
        ObjectModel::Dictionary(dict) => {
            assert forall|i: int| 0 <= i < dict.len() implies remap(dict[i].1, small) == remap(
                dict[i].1,
                large,
            ) by {
                assert(refs(dict[i].1).subset_of(refs(object)));
                lemma_remap_stable(dict[i].1, small, large);
            }
            assert(remap(object, small)->Dictionary_0 =~= remap(object, large)->Dictionary_0);
        },
        ObjectModel::Stream(dict, _) => {
            assert forall|i: int| 0 <= i < dict.len() implies remap(dict[i].1, small) == remap(
                dict[i].1,
                large,
            ) by {
                assert(refs(dict[i].1).subset_of(refs(object)));
                lemma_remap_stable(dict[i].1, small, large);
            }
            assert(remap(object, small)->Stream_0 =~= remap(object, large)->Stream_0);
        },
        ObjectModel::Reference(id) => {
            assert(refs(object).contains(id));
        },
        _ => {},
    }
}

/// A renamed object refers to the new name of each identifier that the
/// object referred to.
pub proof fn lemma_remap_refs(object: ObjectModel, map: IdMap, id: ObjectId)
    requires
        refs(object).contains(id),
        map.contains_key(id),
    ensures
        refs(remap(object, map)).contains(map[id]),
    decreases object,
{
    match object {
        ObjectModel::Array(items) => {
            let i = choose|i: int| 0 <= i < items.len() && refs(#[trigger] items[i]).contains(id);
            lemma_remap_refs(items[i], map, id);
            let after = remap(object, map)->Array_0;
            assert(refs(after[i]).contains(map[id]));
        },
        ObjectModel::Dictionary(dict) => {
            let i = choose|i: int| 0 <= i < dict.len() && refs((#[trigger] dict[i]).1).contains(id);
            lemma_remap_refs(dict[i].1, map, id);
            let after = remap(object, map)->Dictionary_0;
            assert(refs(after[i].1).contains(map[id]));
        },
        ObjectModel::Stream(dict, _) => {
            let i = choose|i: int| 0 <= i < dict.len() && refs((#[trigger] dict[i]).1).contains(id);
            lemma_remap_refs(dict[i].1, map, id);
            let after = remap(object, map)->Stream_0;
            assert(refs(after[i].1).contains(map[id]));
        },
        _ => {},
    }
}

/// Every identifier that a renamed object refers to is the new name of one
/// that the object referred to, where the renaming covers them all.
pub proof fn lemma_remap_refs_only(object: ObjectModel, map: IdMap, new_id: ObjectId)
    requires
        refs(object).subset_of(map.dom()),
        refs(remap(object, map)).contains(new_id),
    ensures
        exists|id: ObjectId| #[trigger] refs(object).contains(id) && map[id] == new_id,
    decreases object,
{
    match object {
        ObjectModel::Array(items) => {
            let after = remap(object, map)->Array_0;
            let i = choose|i: int| 0 <= i < after.len() && refs(#[trigger] after[i]).contains(new_id);
            assert(refs(items[i]).subset_of(refs(object)));
            lemma_remap_refs_only(items[i], map, new_id);
            let id = choose|id: ObjectId| #[trigger] refs(items[i]).contains(id) && map[id] == new_id;
            assert(refs(object).contains(id));
        },
        ObjectModel::Dictionary(dict) => {
            let after = remap(object, map)->Dictionary_0;
            let i = choose|i: int| 0 <= i < after.len() && refs((#[trigger] after[i]).1).contains(new_id);
            assert(refs(dict[i].1).subset_of(refs(object)));
            lemma_remap_refs_only(dict[i].1, map, new_id);
            let id = choose|id: ObjectId| #[trigger] refs(dict[i].1).contains(id) && map[id] == new_id;
            assert(refs(object).contains(id));
        },
        ObjectModel::Stream(dict, _) => {
            let after = remap(object, map)->Stream_0;
            let i = choose|i: int| 0 <= i < after.len() && refs((#[trigger] after[i]).1).contains(new_id);
            assert(refs(dict[i].1).subset_of(refs(object)));
            lemma_remap_refs_only(dict[i].1, map, new_id);
            let id = choose|id: ObjectId| #[trigger] refs(dict[i].1).contains(id) && map[id] == new_id;
            assert(refs(object).contains(id));
        },
        ObjectModel::Reference(id) => {
            assert(refs(object).contains(id));
        },
        _ => {},
    }
}

/// `path` is a chain of references in `table` that stays clear of `avoid`:
/// each identifier but the last is present and refers to the next, and
/// none is in `avoid`.
pub open spec fn avoiding_path(table: TableModel, avoid: Set<ObjectId>, path: Seq<ObjectId>) -> bool {
    &&& path.len() > 0
    &&& forall|i: int| 0 <= i < path.len() ==> !avoid.contains(#[trigger] path[i])
    &&& forall|i: int|
        0 <= i < path.len() - 1 ==> table.contains_key(#[trigger] path[i]) && refs(
            table[path[i]],
        ).contains(path[i + 1])
}

/// `target` is reached from one of `roots` by a chain of references that
/// stays clear of `avoid`.
pub open spec fn reached(
    table: TableModel,
    avoid: Set<ObjectId>,
    roots: Set<ObjectId>,
    target: ObjectId,
) -> bool {
    exists|path: Seq<ObjectId>|
        #[trigger] avoiding_path(table, avoid, path) && roots.contains(path.first()) && path.last()
            == target
}

/// Every identifier reached from `roots` clear of `avoid` is present in
/// `table`: no chain ends in a dangling reference.
pub open spec fn closed_from(table: TableModel, avoid: Set<ObjectId>, roots: Set<ObjectId>) -> bool {
    forall|target: ObjectId| #[trigger]
        reached(table, avoid, roots, target) ==> table.contains_key(target)
}

/// A root outside `avoid` is reached from itself.
pub proof fn lemma_reached_root(
    table: TableModel,
    avoid: Set<ObjectId>,
    roots: Set<ObjectId>,
    root: ObjectId,
)
    requires
        roots.contains(root),
        !avoid.contains(root),
    ensures
        reached(table, avoid, roots, root),
{
    let path = seq![root];
    assert(avoiding_path(table, avoid, path));
    assert(path.first() == root && path.last() == root);
}

/// What is reached from few roots clear of much is reached from more roots
/// clear of less.
pub proof fn lemma_reached_weaken(
    table: TableModel,
    avoid: Set<ObjectId>,
    roots: Set<ObjectId>,
    less: Set<ObjectId>,
    more: Set<ObjectId>,
    target: ObjectId,
)
    requires
        reached(table, avoid, roots, target),
        less.subset_of(avoid),
        roots.subset_of(more),
    ensures
        reached(table, less, more, target),
{
    let path = choose|path: Seq<ObjectId>|
        #[trigger] avoiding_path(table, avoid, path) && roots.contains(path.first()) && path.last()
            == target;
    assert(avoiding_path(table, less, path));
}

/// What is reached from the references of a present object outside `avoid`
/// is reached from that object.
pub proof fn lemma_reached_through(
    table: TableModel,
    avoid: Set<ObjectId>,
    id: ObjectId,
    target: ObjectId,
)
    requires
        table.contains_key(id),
        !avoid.contains(id),
        reached(table, avoid, refs(table[id]), target),
    ensures
        reached(table, avoid, set![id], target),
{
    let path = choose|path: Seq<ObjectId>|
        #[trigger] avoiding_path(table, avoid, path) && refs(table[id]).contains(path.first())
            && path.last() == target;
    let longer = seq![id] + path;
    assert forall|i: int| 0 <= i < longer.len() implies !avoid.contains(#[trigger] longer[i]) by {
        if i > 0 {
            assert(longer[i] == path[i - 1]);
        }
    }
    assert forall|i: int| 0 <= i < longer.len() - 1 implies table.contains_key(#[trigger] longer[i])
        && refs(table[longer[i]]).contains(longer[i + 1]) by {
        if i > 0 {
            assert(longer[i] == path[i - 1]);
            assert(longer[i + 1] == path[i]);
        } else {
            assert(longer[1] == path[0]);
        }
    }
    assert(avoiding_path(table, avoid, longer));
    assert(longer.first() == id);
    assert(longer.last() == path.last());
}

} // verus!
