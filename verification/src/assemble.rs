//! Copying the pages of a document into another: the step that merging and
//! splitting share.

use crate::copier::{
    copied, copy_done, copy_failed, deep_copy_object, lemma_copy_covers, lemma_copy_more_roots,
    lemma_copy_none, lemma_copy_then, newly_mapped,
};
use crate::graph::{
    avoiding_path, closed_from, lemma_reached_root, lemma_reached_weaken, reached, refs, remap,
    submap, IdMap, TableModel,
};
use crate::names::ascii;
use crate::object::{dict_first, dict_get, lemma_dict_first_unique, ObjectId};
use crate::pages::node_kind;
use crate::table::{NotFound, ObjectTable};
use std::collections::BTreeMap;
use vstd::prelude::*;

verus! {

/// The copies of `pages` that `memo` names, in order.
pub open spec fn mapped(pages: Seq<ObjectId>, memo: IdMap) -> Seq<ObjectId> {
    Seq::new(pages.len(), |i: int| memo[pages[i]])
}

/// `result` holds a faithful copy of the part of `source` that `roots`
/// lead to: `memo` renames exactly the objects reached from `roots`, each
/// is present in `source`, its copy stands in `result` under its new name
/// with all references renamed, and no two objects share a copy.
pub open spec fn embedded(
    source: TableModel,
    roots: Set<ObjectId>,
    memo: IdMap,
    result: TableModel,
) -> bool {
    &&& forall|o: ObjectId| #[trigger]
        memo.contains_key(o) ==> {
            &&& reached(source, Set::empty(), roots, o)
            &&& source.contains_key(o)
            &&& result.contains_key(memo[o])
            &&& result[memo[o]] == remap(source[o], memo)
            &&& refs(source[o]).subset_of(memo.dom())
        }
    &&& forall|o: ObjectId| #[trigger] reached(source, Set::empty(), roots, o) ==> memo.contains_key(o)
    &&& forall|a: ObjectId, b: ObjectId|
        #[trigger] memo.contains_key(a) && #[trigger] memo.contains_key(b) && memo[a] == memo[b]
            ==> a == b
}

/// A copy that started with an empty memo and covered its roots is
/// embedded in whatever extends its destination.
pub proof fn lemma_copy_is_embedded(
    source: TableModel,
    roots: Set<ObjectId>,
    d0: TableModel,
    max0: int,
    d1: TableModel,
    m1: IdMap,
    max1: int,
    result: TableModel,
)
    requires
        copy_done(source, roots, d0, Map::empty(), max0, d1, m1, max1),
        roots.subset_of(m1.dom()),
        submap(d1, result),
    ensures
        embedded(source, roots, m1, result),
{
    let m0 = Map::<ObjectId, ObjectId>::empty();
    assert(m0.dom() =~= Set::<ObjectId>::empty());
    assert forall|o: ObjectId| #[trigger] m1.contains_key(o) implies {
        &&& reached(source, Set::empty(), roots, o)
        &&& source.contains_key(o)
        &&& result.contains_key(m1[o])
        &&& result[m1[o]] == remap(source[o], m1)
        &&& refs(source[o]).subset_of(m1.dom())
    } by {
        assert(newly_mapped(m0, m1, o));
        assert(d1.contains_key(m1[o]));
    }
    assert forall|o: ObjectId| #[trigger]
        reached(source, Set::empty(), roots, o) implies m1.contains_key(o) by {
        let path = choose|path: Seq<ObjectId>|
            #[trigger] avoiding_path(source, Set::empty(), path) && roots.contains(path.first())
                && path.last() == o;
        lemma_copy_covers(source, roots, d0, m0, d1, m1, path, path.len() - 1);
    }
    assert forall|a: ObjectId, b: ObjectId|
        #[trigger] m1.contains_key(a) && #[trigger] m1.contains_key(b) && m1[a] == m1[b] implies a
        == b by {
        assert(newly_mapped(m0, m1, a));
        assert(newly_mapped(m0, m1, b));
    }
}

/// What is embedded in a table is embedded in whatever extends it.
pub proof fn lemma_embedded_extends(
    source: TableModel,
    roots: Set<ObjectId>,
    memo: IdMap,
    result: TableModel,
    larger: TableModel,
)
    requires
        embedded(source, roots, memo, result),
        submap(result, larger),
    ensures
        embedded(source, roots, memo, larger),
{
    assert forall|o: ObjectId| #[trigger] memo.contains_key(o) implies {
        &&& larger.contains_key(memo[o])
        &&& larger[memo[o]] == remap(source[o], memo)
    } by {
        assert(result.contains_key(memo[o]));
    }
}

/// The copy of a page is a page.
pub proof fn lemma_copy_of_page_is_page(
    source: TableModel,
    page: ObjectId,
    memo: IdMap,
    result: TableModel,
    copy: ObjectId,
)
    requires
        node_kind(source, page) is Page,
        result.contains_key(copy),
        result[copy] == remap(source[page], memo),
    ensures
        node_kind(result, copy) is Page,
{
    let dict = source[page]->Dictionary_0;
    let after = result[copy]->Dictionary_0;
    let key = ascii("Type"@);
    if !crate::object::dict_has(dict, key) {
        assert(dict_get(dict, key) is None);
    }
    let i = crate::object::dict_index(dict, key);
    assert(dict_first(dict, key, i));
    assert(dict_first(after, key, i)) by {
        assert forall|j: int| 0 <= j < i implies after[j].0 != key by {
            assert(after[j].0 == dict[j].0);
        }
    }
    lemma_dict_first_unique(after, key, i);
    lemma_dict_first_unique(dict, key, i);
    assert(source.contains_key(page));
    assert(source[page] is Dictionary);
    assert(dict[i].1 is Name);
    assert(after[i] == (dict[i].0, remap(dict[i].1, memo)));
    assert(after[i].1 == dict[i].1);
    assert(dict_get(after, key) == Some(dict[i].1));
}

/// Copies the subgraphs of `pages` out of `source` into `dst`, one page
/// after the other under one memo, and appends the identifiers of the
/// copied pages to `out`, in order.
pub fn copy_pages(
    source: &ObjectTable,
    pages: &Vec<ObjectId>,
    dst: &mut ObjectTable,
    memo: &mut BTreeMap<ObjectId, ObjectId>,
    out: &mut Vec<ObjectId>,
) -> (r: Result<(), NotFound>)
    requires
        old(memo)@.dom().subset_of(source@.dom()),
        old(dst).max_id() + source@.dom().len() - old(memo)@.dom().len() <= u32::MAX,
    ensures
        r is Ok <==> closed_from(source@, old(memo)@.dom(), pages@.to_set()),
        match r {
            Ok(()) => {
                &&& copy_done(
                    source@,
                    pages@.to_set(),
                    old(dst)@,
                    old(memo)@,
                    old(dst).max_id() as int,
                    final(dst)@,
                    final(memo)@,
                    final(dst).max_id() as int,
                )
                &&& pages@.to_set().subset_of(final(memo)@.dom())
                &&& final(out)@ == old(out)@ + mapped(pages@, final(memo)@)
            },
            Err(e) => copy_failed(source@, pages@.to_set(), old(memo)@, e.id),
        },
{
    let ghost d0 = dst@;
    let ghost m0 = memo@;
    let ghost max0 = dst.max_id() as int;
    let ghost out0 = out@;
    let ghost roots = pages@.to_set();
    let mut i: usize = 0;
    proof {
        source.lemma_finite();
        lemma_copy_none(source@, roots, d0, m0, max0);
        assert(out0 + mapped(pages@.take(0), m0) =~= out0);
    }
    while i < pages.len()
        invariant
            0 <= i <= pages.len(),
            roots == pages@.to_set(),
            m0 == old(memo)@,
            source@.dom().finite(),
            dst.max_id() + source@.dom().len() - memo@.dom().len() <= u32::MAX,
            copy_done(source@, roots, d0, m0, max0, dst@, memo@, dst.max_id() as int),
            forall|j: int| 0 <= j < i ==> memo@.contains_key(#[trigger] pages@[j]),
            out@ == out0 + mapped(pages@.take(i as int), memo@),
        decreases pages.len() - i,
    {
        let ghost da = dst@;
        let ghost ma = memo@;
        let ghost maxa = dst.max_id() as int;
        let ghost outa = out@;
        let page = pages[i];
        proof {
            assert(roots.contains(page)) by {
                assert(pages@[i as int] == page);
            }
        }
        match deep_copy_object(source, page, dst, memo) {
            Ok(new_id) => {
                out.push(new_id);
                proof {
                    lemma_copy_more_roots(
                        source@,
                        set![page],
                        roots,
                        da,
                        ma,
                        maxa,
                        dst@,
                        memo@,
                        dst.max_id() as int,
                    );
                    lemma_copy_then(
                        source@,
                        roots,
                        d0,
                        m0,
                        max0,
                        da,
                        ma,
                        maxa,
                        dst@,
                        memo@,
                        dst.max_id() as int,
                    );
                    assert forall|j: int| 0 <= j < i + 1 implies memo@.contains_key(
                        #[trigger] pages@[j],
                    ) by {
                        if j < i {
                            assert(ma.contains_key(pages@[j]));
                        }
                    }
                    assert(out@ =~= out0 + mapped(pages@.take(i + 1), memo@)) by {
                        assert forall|j: int| 0 <= j < i implies mapped(pages@.take(i as int), ma)[j]
                            == mapped(pages@.take(i + 1), memo@)[j] by {
                            assert(ma.contains_key(pages@[j]));
                        }
                    }
                }
                i += 1;
            },
            Err(e) => {
                proof {
                    lemma_reached_weaken(source@, ma.dom(), set![page], m0.dom(), roots, e.id);
                }
                return Err(e);
            },
        }
    }
    proof {
        assert(pages@.take(pages.len() as int) =~= pages@);
        assert forall|id: ObjectId| roots.contains(id) implies memo@.dom().contains(id) by {
            let j = choose|j: int| 0 <= j < pages@.len() && pages@[j] == id;
            assert(memo@.contains_key(pages@[j]));
        }
        assert forall|o: ObjectId| #[trigger]
            reached(source@, m0.dom(), roots, o) implies source@.contains_key(o) by {
            let path = choose|path: Seq<ObjectId>|
                #[trigger] avoiding_path(source@, m0.dom(), path) && roots.contains(path.first())
                    && path.last() == o;
            lemma_copy_covers(source@, roots, d0, m0, dst@, memo@, path, path.len() - 1);
            assert(newly_mapped(m0, memo@, o));
        }
    }
    Ok(())
}

} // verus!
