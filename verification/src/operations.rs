//! Merging documents and splitting a range of pages off a document.

use crate::assemble::{
    copy_pages, embedded, lemma_copy_is_embedded, lemma_embedded_extends, mapped,
};
use crate::copier::{copied, copy_done, lemma_memo_grew, newly_mapped};
use crate::document::ObjectGraph;
use crate::error::{ParseError, PdfError};
use crate::graph::{closed_from, reached, remap, submap, IdMap, TableModel};
use crate::names::ascii;
use crate::object::{
    dict_first, dict_get, dict_has, dict_set, lemma_dict_first_unique, DictModel, ObjectId,
    ObjectModel,
};
use crate::pages::{
    build_page_tree, catalog_node, law_built_tree_lists_its_pages, lemma_listed_pages_are_pages,
    node_kind, page_ids, page_list, pages_node,
};
use std::collections::BTreeMap;
use vstd::prelude::*;

verus! {

/// A table and the pages that are taken from it, in order.
pub type Part = (TableModel, Seq<ObjectId>);

/// The pages of a document, where it has a catalog.
pub open spec fn pages_of(graph: ObjectGraph) -> Option<Seq<ObjectId>> {
    page_list(graph.objects@, graph.trailer@)
}

/// A document that can be merged: it has a page list, and no chain of
/// references from a page ends in a dangling reference.
pub open spec fn sound(graph: ObjectGraph) -> bool {
    pages_of(graph) is Some && closed_from(
        graph.objects@,
        Set::empty(),
        pages_of(graph)->0.to_set(),
    )
}

/// The number of objects in all of `sources`.
pub open spec fn total_objects(sources: Seq<ObjectGraph>) -> nat
    decreases sources.len(),
{
    if sources.len() == 0 {
        0
    } else {
        total_objects(sources.drop_last()) + sources.last().objects@.dom().len()
    }
}

/// The copies of the pages of each part, part after part.
pub open spec fn joined_pages(parts: Seq<Part>, memos: Seq<IdMap>) -> Seq<ObjectId>
    decreases parts.len(),
{
    if parts.len() == 0 || memos.len() != parts.len() {
        Seq::empty()
    } else {
        joined_pages(parts.drop_last(), memos.drop_last()) + mapped(parts.last().1, memos.last())
    }
}

/// `table` holds the copies of `parts` and nothing else: each part is
/// embedded under its own memo, and no two parts share a copy.
#[verifier::opaque]
pub open spec fn gathered(parts: Seq<Part>, memos: Seq<IdMap>, table: TableModel) -> bool {
    &&& memos.len() == parts.len()
    &&& forall|i: int|
        0 <= i < parts.len() ==> embedded(
            parts[i].0,
            parts[i].1.to_set(),
            #[trigger] memos[i],
            table,
        )
    &&& forall|i: int, j: int, a: ObjectId, b: ObjectId|
        0 <= i < j < parts.len() && #[trigger] memos[i].contains_key(a)
            && #[trigger] memos[j].contains_key(b) ==> memos[i][a] != memos[j][b]
    &&& forall|k: ObjectId| #[trigger]
        table.contains_key(k) ==> exists|i: int, o: ObjectId|
            0 <= i < parts.len() && #[trigger] memos[i].contains_key(o) && memos[i][o] == k
}

/// `result` is the document assembled from `parts`: the copies of the
/// parts, an inner node over the copied pages in order, a catalog over
/// that node, and a trailer that names the catalog and nothing else.
#[verifier::opaque]
pub open spec fn assembled(
    parts: Seq<Part>,
    memos: Seq<IdMap>,
    result: ObjectGraph,
    pages_id: ObjectId,
    catalog_id: ObjectId,
) -> bool {
    let table = result.objects@;
    let rest = table.remove(pages_id).remove(catalog_id);
    &&& pages_id != catalog_id
    &&& table.contains_key(pages_id)
    &&& table.contains_key(catalog_id)
    &&& table[pages_id] == pages_node(joined_pages(parts, memos))
    &&& table[catalog_id] == catalog_node(pages_id)
    &&& gathered(parts, memos, rest)
    &&& result.trailer@ == seq![(ascii("Root"@), ObjectModel::Reference(catalog_id))]
    &&& page_list(table, result.trailer@) == Some(joined_pages(parts, memos))
}

/// One more part, copied under a fresh memo into a table that held the
/// parts before it, is gathered with them.
pub proof fn lemma_gather_one_more(
    parts: Seq<Part>,
    memos: Seq<IdMap>,
    before: TableModel,
    max0: int,
    after: TableModel,
    memo: IdMap,
    max1: int,
)
    requires
        parts.len() > 0,
        gathered(parts.drop_last(), memos, before),
        copy_done(
            parts.last().0,
            parts.last().1.to_set(),
            before,
            Map::empty(),
            max0,
            after,
            memo,
            max1,
        ),
        parts.last().1.to_set().subset_of(memo.dom()),
    ensures
        gathered(parts, memos.push(memo), after),
{
    reveal(gathered);
    let n = parts.len() - 1;
    let all = memos.push(memo);
    let empty = Map::<ObjectId, ObjectId>::empty();
    assert(submap(before, after));
    assert forall|i: int| 0 <= i < parts.len() implies embedded(
        parts[i].0,
        parts[i].1.to_set(),
        #[trigger] all[i],
        after,
    ) by {
        if i < n {
            assert(all[i] == memos[i]);
            assert(parts.drop_last()[i] == parts[i]);
            lemma_embedded_extends(parts[i].0, parts[i].1.to_set(), memos[i], before, after);
        } else {
            lemma_copy_is_embedded(
                parts.last().0,
                parts.last().1.to_set(),
                before,
                max0,
                after,
                memo,
                max1,
                after,
            );
        }
    }
    assert forall|i: int, j: int, a: ObjectId, b: ObjectId|
        0 <= i < j < parts.len() && #[trigger] all[i].contains_key(a)
            && #[trigger] all[j].contains_key(b) implies all[i][a] != all[j][b] by {
        assert(all[i] == memos[i]);
        assert(parts.drop_last()[i] == parts[i]);
        if j < n {
            assert(all[j] == memos[j]);
        } else {
            assert(embedded(parts[i].0, parts[i].1.to_set(), memos[i], before));
            assert(before.contains_key(memos[i][a]));
            assert(newly_mapped(empty, memo, b));
            assert(!before.contains_key(memo[b]));
        }
    }
    assert forall|k: ObjectId| #[trigger] after.contains_key(k) implies exists|i: int, o: ObjectId|
        0 <= i < parts.len() && #[trigger] all[i].contains_key(o) && all[i][o] == k by {
        if before.contains_key(k) {
            let (i, o) = choose|i: int, o: ObjectId|
                0 <= i < parts.drop_last().len() && #[trigger] memos[i].contains_key(o)
                    && memos[i][o] == k;
            assert(all[i] == memos[i]);
            assert(all[i].contains_key(o) && all[i][o] == k);
        } else {
            let o = choose|o: ObjectId| #[trigger] newly_mapped(empty, memo, o) && memo[o] == k;
            assert(all[n].contains_key(o) && all[n][o] == k);
        }
    }
}

/// Nothing is gathered in an empty table.
pub proof fn lemma_gathered_nothing()
    ensures
        gathered(Seq::empty(), Seq::empty(), Map::empty()),
{
    reveal(gathered);
}

/// The trailer that names `catalog_id` and nothing else is what an empty
/// trailer becomes when the catalog is stored in it.
pub proof fn lemma_fresh_trailer(catalog_id: ObjectId)
    ensures
        dict_set(Seq::empty(), ascii("Root"@), ObjectModel::Reference(catalog_id)) == seq![
            (ascii("Root"@), ObjectModel::Reference(catalog_id)),
        ],
        dict_get(
            seq![(ascii("Root"@), ObjectModel::Reference(catalog_id))],
            ascii("Root"@),
        ) == Some(ObjectModel::Reference(catalog_id)),
{
    let empty = Seq::<(Seq<u8>, ObjectModel)>::empty();
    let key = ascii("Root"@);
    let value = ObjectModel::Reference(catalog_id);
    assert(!dict_has(empty, key));
    assert(dict_set(empty, key, value) =~= seq![(key, value)]);
    assert(dict_first(seq![(key, value)], key, 0));
    lemma_dict_first_unique(seq![(key, value)], key, 0);
}

/// A table of gathered parts, with an inner node over pages and a catalog
/// added under fresh identifiers, is the assembled document.
pub proof fn lemma_assemble(
    parts: Seq<Part>,
    memos: Seq<IdMap>,
    before: TableModel,
    result: ObjectGraph,
    pages_id: ObjectId,
    catalog_id: ObjectId,
)
    requires
        gathered(parts, memos, before),
        before.dom().finite(),
        !before.contains_key(pages_id),
        !before.contains_key(catalog_id),
        pages_id != catalog_id,
        result.objects@ == before.insert(pages_id, pages_node(joined_pages(parts, memos))).insert(
            catalog_id,
            catalog_node(pages_id),
        ),
        result.trailer@ == dict_set(
            Seq::empty(),
            ascii("Root"@),
            ObjectModel::Reference(catalog_id),
        ),
        forall|i: int|
            0 <= i < joined_pages(parts, memos).len() ==> before.contains_key(
                #[trigger] joined_pages(parts, memos)[i],
            ) && node_kind(before, joined_pages(parts, memos)[i]) is Page,
    ensures
        assembled(parts, memos, result, pages_id, catalog_id),
{
    reveal(gathered);
    reveal(assembled);
    let table = result.objects@;
    let pages = joined_pages(parts, memos);
    lemma_fresh_trailer(catalog_id);
    assert(table.remove(pages_id).remove(catalog_id) =~= before);
    assert forall|i: int| 0 <= i < pages.len() implies node_kind(table, #[trigger] pages[i]) is Page by {
        assert(before.contains_key(pages[i]));
        assert(table[pages[i]] == before[pages[i]]);
    }
    law_built_tree_lists_its_pages(table, result.trailer@, pages, pages_id, catalog_id);
}

/// The tables of `sources` with their page lists.
pub open spec fn parts_of(sources: Seq<ObjectGraph>) -> Seq<Part> {
    Seq::new(sources.len(), |i: int| (sources[i].objects@, pages_of(sources[i])->0))
}

/// What an operation failed with on a table from which `pages` were to be
/// taken: there was no page list, or a chain of references from one of the
/// pages ends in the identifier that the error names, which is absent.
pub open spec fn failed(table: TableModel, pages: Option<Seq<ObjectId>>, e: PdfError) -> bool {
    match e {
        PdfError::Parse(ParseError::MissingCatalog) => pages is None,
        PdfError::Parse(ParseError::DanglingReference(id)) => {
            &&& pages is Some
            &&& !table.contains_key(id)
            &&& reached(table, Set::empty(), pages->0.to_set(), id)
        },
        _ => false,
    }
}

/// The objects of the first `k` sources are no more than those of all.
pub proof fn lemma_total_objects_prefix(sources: Seq<ObjectGraph>, k: int)
    requires
        0 <= k <= sources.len(),
    ensures
        total_objects(sources.take(k)) <= total_objects(sources),
        k < sources.len() ==> total_objects(sources.take(k + 1)) == total_objects(sources.take(k))
            + sources[k].objects@.dom().len(),
    decreases sources.len() - k,
{
    if k < sources.len() {
        lemma_total_objects_prefix(sources, k + 1);
        assert(sources.take(k + 1).drop_last() =~= sources.take(k));
        assert(sources.take(k + 1).last() == sources[k]);
    } else {
        assert(sources.take(k) =~= sources);
    }
}

/// The pages listed so far stay pages when a table grows, and the copies
/// of more pages, embedded in the grown table, are pages too.
pub proof fn lemma_more_pages(
    source: TableModel,
    trailer: DictModel,
    pages: Seq<ObjectId>,
    memo: IdMap,
    before: TableModel,
    after: TableModel,
    listed: Seq<ObjectId>,
)
    requires
        submap(before, after),
        forall|k: int|
            0 <= k < listed.len() ==> before.contains_key(#[trigger] listed[k]) && node_kind(
                before,
                listed[k],
            ) is Page,
        forall|k: int| 0 <= k < pages.len() ==> node_kind(source, #[trigger] pages[k]) is Page,
        copied(source, before, Map::empty(), after, memo),
        pages.to_set().subset_of(memo.dom()),
    ensures
        forall|k: int|
            0 <= k < (listed + mapped(pages, memo)).len() ==> after.contains_key(
                #[trigger] (listed + mapped(pages, memo))[k],
            ) && node_kind(after, (listed + mapped(pages, memo))[k]) is Page,
{
    let all = listed + mapped(pages, memo);
    assert forall|k: int| 0 <= k < all.len() implies after.contains_key(#[trigger] all[k])
        && node_kind(after, all[k]) is Page by {
        if k < listed.len() {
            assert(all[k] == listed[k]);
            assert(before.contains_key(listed[k]));
            assert(after[listed[k]] == before[listed[k]]);
        } else {
            let p = pages[k - listed.len()];
            assert(all[k] == memo[p]);
            assert(pages.to_set().contains(p));
            assert(newly_mapped(Map::empty(), memo, p));
            crate::assemble::lemma_copy_of_page_is_page(source, p, memo, after, memo[p]);
        }
    }
}

/// The pages of a range are pages of the document.
pub proof fn lemma_range_of_pages(table: TableModel, trailer: DictModel, start: int, end: int)
    requires
        page_list(table, trailer) is Some,
    ensures
        forall|k: int|
            0 <= k < page_range(page_list(table, trailer)->0, start, end).len() ==> node_kind(
                table,
                #[trigger] page_range(page_list(table, trailer)->0, start, end)[k],
            ) is Page,
{
    let pages = page_list(table, trailer)->0;
    let range = page_range(pages, start, end);
    assert forall|k: int| 0 <= k < range.len() implies node_kind(table, #[trigger] range[k]) is Page by {
        let low = if start < 1 {
            0
        } else {
            start - 1
        };
        assert(range[k] == pages[low + k]);
        lemma_listed_pages_are_pages(table, trailer, low + k);
    }
}

/// Whatever a document lists is a page.
pub proof fn lemma_all_listed_are_pages(table: TableModel, trailer: DictModel)
    requires
        page_list(table, trailer) is Some,
    ensures
        forall|k: int|
            0 <= k < page_list(table, trailer)->0.len() ==> node_kind(
                table,
                #[trigger] page_list(table, trailer)->0[k],
            ) is Page,
{
    assert forall|k: int| 0 <= k < page_list(table, trailer)->0.len() implies node_kind(
        table,
        #[trigger] page_list(table, trailer)->0[k],
    ) is Page by {
        lemma_listed_pages_are_pages(table, trailer, k);
    }
}

/// Concatenates documents: the result holds a copy of what the pages of
/// each source lead to, and lists the copied pages source after source,
/// each source's pages in their own order. What two pages of one source
/// share is copied once; nothing is shared between sources.
pub fn merge_pdfs(sources: &Vec<ObjectGraph>) -> (r: Result<ObjectGraph, PdfError>)
    requires
        total_objects(sources@) + 2 <= u32::MAX,
    ensures
        r is Ok <==> forall|i: int| 0 <= i < sources@.len() ==> sound(#[trigger] sources@[i]),
        match r {
            Ok(result) => exists|memos: Seq<IdMap>, pages_id: ObjectId, catalog_id: ObjectId| #[trigger]
                assembled(parts_of(sources@), memos, result, pages_id, catalog_id),
            Err(e) => exists|i: int|
                0 <= i < sources@.len() && (forall|j: int| 0 <= j < i ==> sound(#[trigger] sources@[j]))
                    && failed((#[trigger] sources@[i]).objects@, pages_of(sources@[i]), e),
        },
{
    let mut result = ObjectGraph::new();
    let mut new_pages: Vec<ObjectId> = Vec::new();
    let ghost mut memos: Seq<IdMap> = Seq::empty();
    let mut i: usize = 0;
    proof {
        lemma_gathered_nothing();
        assert(parts_of(sources@.take(0)) =~= Seq::<Part>::empty());
        lemma_total_objects_prefix(sources@, 0);
        assert(total_objects(sources@.take(0)) == 0);
    }
    while i < sources.len()
        invariant
            0 <= i <= sources.len(),
            forall|j: int| 0 <= j < i ==> sound(#[trigger] sources@[j]),
            memos.len() == i,
            gathered(parts_of(sources@.take(i as int)), memos, result.objects@),
            new_pages@ == joined_pages(parts_of(sources@.take(i as int)), memos),
            forall|k: int|
                0 <= k < new_pages@.len() ==> result.objects@.contains_key(#[trigger] new_pages@[k])
                    && node_kind(result.objects@, new_pages@[k]) is Page,
            result.objects.max_id() + total_objects(sources@) - total_objects(
                sources@.take(i as int),
            ) + 2 <= u32::MAX,
            result.trailer@ == Seq::<(Seq<u8>, ObjectModel)>::empty(),
        decreases sources.len() - i,
    {
        let source = &sources[i];
        let ghost table = source.objects@;
        let pages = match page_ids(source) {
            Ok(pages) => pages,
            Err(_) => {
                return Err(PdfError::Parse(ParseError::MissingCatalog));
            },
        };
        let mut memo: BTreeMap<ObjectId, ObjectId> = BTreeMap::new();
        let ghost da = result.objects@;
        let ghost maxa = result.objects.max_id() as int;
        let ghost listed = new_pages@;
        proof {
            lemma_total_objects_prefix(sources@, i as int);
            lemma_total_objects_prefix(sources@, i + 1);
            assert(memo@.dom() =~= Set::<ObjectId>::empty());
        }
        match copy_pages(&source.objects, &pages, &mut result.objects, &mut memo, &mut new_pages) {
            Ok(()) => {},
            Err(e) => {
                return Err(PdfError::Parse(ParseError::DanglingReference(e.id)));
            },
        }
        proof {
            let before = parts_of(sources@.take(i as int));
            let parts = parts_of(sources@.take(i + 1));
            let db = result.objects@;
            assert(parts.drop_last() =~= before);
            assert(parts.last() == (table, pages@));
            lemma_gather_one_more(
                parts,
                memos,
                da,
                maxa,
                db,
                memo@,
                result.objects.max_id() as int,
            );
            assert(memos.push(memo@).drop_last() =~= memos);
            assert(memos.push(memo@).last() == memo@);
            assert(joined_pages(parts, memos.push(memo@)) == joined_pages(before, memos) + mapped(
                pages@,
                memo@,
            ));
            source.objects.lemma_finite();
            lemma_memo_grew(table, Map::empty(), memo@);
            lemma_all_listed_are_pages(table, source.trailer@);
            lemma_more_pages(table, source.trailer@, pages@, memo@, da, db, listed);
            memos = memos.push(memo@);
        }
        i += 1;
    }
    proof {
        assert(sources@.take(sources.len() as int) =~= sources@);
        result.objects.lemma_finite();
    }
    let ghost before = result.objects@;
    let ids = build_page_tree(&mut result, &new_pages);
    proof {
        lemma_assemble(parts_of(sources@), memos, before, result, ids.0, ids.1);
    }
    let merged: Result<ObjectGraph, PdfError> = Ok(result);
    proof {
        assert(assembled(parts_of(sources@), memos, merged->Ok_0, ids.0, ids.1));
    }
    merged
}

/// The pages numbered `start` to `end`, both included and counted from 1,
/// as far as `pages` has them.
pub open spec fn page_range(pages: Seq<ObjectId>, start: int, end: int) -> Seq<ObjectId> {
    let low = if start < 1 {
        0
    } else {
        start - 1
    };
    let high = if end < pages.len() {
        end
    } else {
        pages.len() as int
    };
    if low < high {
        pages.subrange(low, high)
    } else {
        Seq::empty()
    }
}

/// The pages of `graph` numbered `start` to `end`, where it has a page list.
pub open spec fn selected_pages(graph: ObjectGraph, start: int, end: int) -> Option<Seq<ObjectId>> {
    match pages_of(graph) {
        Some(pages) => Some(page_range(pages, start, end)),
        None => None,
    }
}

/// The pages numbered `start` to `end` of `pages`, as far as there are any.
pub fn select_pages(pages: &Vec<ObjectId>, start: u32, end: u32) -> (selected: Vec<ObjectId>)
    ensures
        selected@ == page_range(pages@, start as int, end as int),
{
    let low: usize = if start < 1 {
        0
    } else {
        (start - 1) as usize
    };
    let high: usize = if (end as usize) < pages.len() {
        end as usize
    } else {
        pages.len()
    };
    let mut selected: Vec<ObjectId> = Vec::new();
    if low < high {
        let mut k: usize = low;
        assert(pages@.subrange(low as int, low as int) =~= selected@);
        while k < high
            invariant
                low <= k <= high <= pages.len(),
                selected@ == pages@.subrange(low as int, k as int),
            decreases high - k,
        {
            selected.push(pages[k]);
            assert(pages@.subrange(low as int, k as int).push(pages@[k as int]) =~= pages@.subrange(
                low as int,
                k + 1,
            ));
            k += 1;
        }
    }
    selected
}

/// A new document of the pages numbered `start_page` to `end_page` of
/// `source`, both included and counted from 1, in order. Pages that
/// `source` does not have are passed over.
pub fn split_pdf(source: &ObjectGraph, start_page: u32, end_page: u32) -> (r: Result<
    ObjectGraph,
    PdfError,
>)
    requires
        source.objects@.dom().len() + 2 <= u32::MAX,
    ensures
        r is Ok <==> selected_pages(*source, start_page as int, end_page as int) is Some
            && closed_from(
            source.objects@,
            Set::empty(),
            selected_pages(*source, start_page as int, end_page as int)->0.to_set(),
        ),
        match r {
            Ok(result) => exists|memo: IdMap, pages_id: ObjectId, catalog_id: ObjectId| #[trigger]
                assembled(
                    seq![
                        (
                            source.objects@,
                            selected_pages(*source, start_page as int, end_page as int)->0,
                        ),
                    ],
                    seq![memo],
                    result,
                    pages_id,
                    catalog_id,
                ),
            Err(e) => failed(
                source.objects@,
                selected_pages(*source, start_page as int, end_page as int),
                e,
            ),
        },
{
    let pages = match page_ids(source) {
        Ok(pages) => pages,
        Err(_) => {
            return Err(PdfError::Parse(ParseError::MissingCatalog));
        },
    };
    let selected = select_pages(&pages, start_page, end_page);
    let mut result = ObjectGraph::new();
    let mut new_pages: Vec<ObjectId> = Vec::new();
    let mut memo: BTreeMap<ObjectId, ObjectId> = BTreeMap::new();
    let ghost table = source.objects@;
    let ghost parts = seq![(table, selected@)];
    proof {
        assert(memo@.dom() =~= Set::<ObjectId>::empty());
    }
    match copy_pages(&source.objects, &selected, &mut result.objects, &mut memo, &mut new_pages) {
        Ok(()) => {},
        Err(e) => {
            return Err(PdfError::Parse(ParseError::DanglingReference(e.id)));
        },
    }
    let ghost before = result.objects@;
    proof {
        let none = Seq::<IdMap>::empty();
        let empty = Map::<ObjectId, ObjectModel>::empty();
        assert(parts.drop_last() =~= Seq::<Part>::empty());
        lemma_gathered_nothing();
        lemma_gather_one_more(
            parts,
            none,
            empty,
            0,
            before,
            memo@,
            result.objects.max_id() as int,
        );
        assert(none.push(memo@) =~= seq![memo@]);
        assert(seq![memo@].drop_last() =~= none);
        assert(joined_pages(parts.drop_last(), none) =~= Seq::<ObjectId>::empty());
        assert(new_pages@ =~= joined_pages(parts, seq![memo@]));
        source.objects.lemma_finite();
        lemma_memo_grew(table, Map::empty(), memo@);
        result.objects.lemma_finite();
        lemma_range_of_pages(table, source.trailer@, start_page as int, end_page as int);
        lemma_more_pages(table, source.trailer@, selected@, memo@, empty, before, Seq::empty());
    }
    let ids = build_page_tree(&mut result, &new_pages);
    proof {
        lemma_assemble(parts, seq![memo@], before, result, ids.0, ids.1);
    }
    let split: Result<ObjectGraph, PdfError> = Ok(result);
    proof {
        assert(assembled(parts, seq![memo@], split->Ok_0, ids.0, ids.1));
    }
    split
}

/// The number of pages in all of `parts`.
pub open spec fn total_pages(parts: Seq<Part>) -> nat
    decreases parts.len(),
{
    if parts.len() == 0 {
        0
    } else {
        total_pages(parts.drop_last()) + parts.last().1.len()
    }
}

/// The joined pages are as many as the parts have pages.
pub proof fn lemma_joined_pages_len(parts: Seq<Part>, memos: Seq<IdMap>)
    requires
        memos.len() == parts.len(),
    ensures
        joined_pages(parts, memos).len() == total_pages(parts),
    decreases parts.len(),
{
    if parts.len() > 0 {
        lemma_joined_pages_len(parts.drop_last(), memos.drop_last());
    }
}

/// An assembled document lists the copies of the pages of its parts, part
/// after part and in each part's order: as many pages as the parts have
/// together. Each part is embedded in it.
pub proof fn law_assembled_lists_all_pages(
    parts: Seq<Part>,
    memos: Seq<IdMap>,
    result: ObjectGraph,
    pages_id: ObjectId,
    catalog_id: ObjectId,
)
    requires
        assembled(parts, memos, result, pages_id, catalog_id),
    ensures
        memos.len() == parts.len(),
        pages_of(result) == Some(joined_pages(parts, memos)),
        pages_of(result)->0.len() == total_pages(parts),
        forall|i: int|
            0 <= i < parts.len() ==> embedded(
                parts[i].0,
                parts[i].1.to_set(),
                #[trigger] memos[i],
                result.objects@,
            ),
        forall|i: int, j: int, a: ObjectId, b: ObjectId|
            0 <= i < j < parts.len() && #[trigger] memos[i].contains_key(a)
                && #[trigger] memos[j].contains_key(b) ==> memos[i][a] != memos[j][b],
{
    reveal(assembled);
    reveal(gathered);
    lemma_joined_pages_len(parts, memos);
    let table = result.objects@;
    let rest = table.remove(pages_id).remove(catalog_id);
    assert(submap(rest, table));
    assert forall|i: int| 0 <= i < parts.len() implies embedded(
        parts[i].0,
        parts[i].1.to_set(),
        #[trigger] memos[i],
        table,
    ) by {
        lemma_embedded_extends(parts[i].0, parts[i].1.to_set(), memos[i], rest, table);
    }
}

/// The merge of two documents has as many pages as both together: first
/// the copies of the pages of the first, in order, then those of the
/// second. Each page is the copy of a source page with the references
/// renamed, and so is everything that the source page leads to.
pub proof fn law_merge_of_two(
    first: Part,
    second: Part,
    memos: Seq<IdMap>,
    result: ObjectGraph,
    pages_id: ObjectId,
    catalog_id: ObjectId,
)
    requires
        assembled(seq![first, second], memos, result, pages_id, catalog_id),
    ensures
        memos.len() == 2,
        pages_of(result) == Some(mapped(first.1, memos[0]) + mapped(second.1, memos[1])),
        pages_of(result)->0.len() == first.1.len() + second.1.len(),
        forall|k: int|
            0 <= k < first.1.len() ==> result.objects@[#[trigger] pages_of(result)->0[k]] == remap(
                first.0[first.1[k]],
                memos[0],
            ),
        forall|k: int|
            0 <= k < second.1.len() ==> result.objects@[#[trigger] pages_of(result)->0[first.1.len()
                + k]] == remap(second.0[second.1[k]], memos[1]),
        embedded(first.0, first.1.to_set(), memos[0], result.objects@),
        embedded(second.0, second.1.to_set(), memos[1], result.objects@),
{
    let parts = seq![first, second];
    law_assembled_lists_all_pages(parts, memos, result, pages_id, catalog_id);
    assert(parts.drop_last() =~= seq![first]);
    assert(seq![first].drop_last() =~= Seq::<Part>::empty());
    assert(memos.drop_last().drop_last() =~= Seq::<IdMap>::empty());
    assert(memos.drop_last().last() == memos[0]);
    assert(memos.last() == memos[1]);
    assert(joined_pages(seq![first].drop_last(), memos.drop_last().drop_last()) =~= Seq::<
        ObjectId,
    >::empty());
    assert(seq![first].last() == first);
    assert(joined_pages(seq![first], memos.drop_last()) =~= mapped(first.1, memos[0]));
    assert(parts.last() == second);
    assert(joined_pages(parts, memos) =~= mapped(first.1, memos[0]) + mapped(second.1, memos[1]));
    assert(parts[0] == first && parts[1] == second);
    assert(embedded(parts[0].0, parts[0].1.to_set(), memos[0], result.objects@));
    assert(embedded(parts[1].0, parts[1].1.to_set(), memos[1], result.objects@));
    let list = pages_of(result)->0;
    assert forall|k: int| 0 <= k < first.1.len() implies result.objects@[#[trigger] list[k]]
        == remap(first.0[first.1[k]], memos[0]) by {
        let p = first.1[k];
        assert(first.1.to_set().contains(p));
        crate::graph::lemma_reached_root(first.0, Set::empty(), first.1.to_set(), p);
        assert(memos[0].contains_key(p));
    }
    assert forall|k: int| 0 <= k < second.1.len() implies result.objects@[#[trigger] list[first.1.len()
        + k]] == remap(second.0[second.1[k]], memos[1]) by {
        let p = second.1[k];
        assert(second.1.to_set().contains(p));
        crate::graph::lemma_reached_root(second.0, Set::empty(), second.1.to_set(), p);
        assert(memos[1].contains_key(p));
    }
}

/// A split lists the copies of the pages of the range, in order: those of
/// the pages numbered `start` to `end` that the source has, which are
/// `end - start + 1` pages where the source has them all. Each page is the
/// copy of its source page with the references renamed.
pub proof fn law_split_takes_the_range(
    table: TableModel,
    pages: Seq<ObjectId>,
    start: int,
    end: int,
    memo: IdMap,
    result: ObjectGraph,
    pages_id: ObjectId,
    catalog_id: ObjectId,
)
    requires
        assembled(
            seq![(table, page_range(pages, start, end))],
            seq![memo],
            result,
            pages_id,
            catalog_id,
        ),
    ensures
        pages_of(result) == Some(mapped(page_range(pages, start, end), memo)),
        1 <= start <= end <= pages.len() ==> pages_of(result)->0.len() == end - start + 1,
        start > end || start > pages.len() || end < 1 ==> pages_of(result)->0.len() == 0,
        forall|k: int|
            0 <= k < pages_of(result)->0.len() ==> result.objects@[#[trigger] pages_of(result)->0[k]]
                == remap(
                table[pages[(if start < 1 {
                    0
                } else {
                    start - 1
                }) + k]],
                memo,
            ),
        embedded(table, page_range(pages, start, end).to_set(), memo, result.objects@),
{
    let range = page_range(pages, start, end);
    let parts = seq![(table, range)];
    let memos = seq![memo];
    law_assembled_lists_all_pages(parts, memos, result, pages_id, catalog_id);
    assert(parts.drop_last() =~= Seq::<Part>::empty());
    assert(memos.drop_last() =~= Seq::<IdMap>::empty());
    assert(joined_pages(parts.drop_last(), memos.drop_last()) =~= Seq::<ObjectId>::empty());
    assert(parts.last() == (table, range));
    assert(memos.last() == memo);
    assert(joined_pages(parts, memos) =~= mapped(range, memo));
    assert(parts[0] == (table, range));
    assert(embedded(parts[0].0, parts[0].1.to_set(), memos[0], result.objects@));
    let list = pages_of(result)->0;
    assert forall|k: int| 0 <= k < list.len() implies result.objects@[#[trigger] list[k]] == remap(
        table[pages[(if start < 1 {
            0
        } else {
            start - 1
        }) + k]],
        memo,
    ) by {
        let p = range[k];
        assert(range.to_set().contains(p));
        crate::graph::lemma_reached_root(table, Set::empty(), range.to_set(), p);
        assert(memo.contains_key(p));
    }
}

/// Every joined page is the copy of a page of one of the parts.
pub proof fn lemma_joined_page_is_a_copy(parts: Seq<Part>, memos: Seq<IdMap>, k: int)
    requires
        memos.len() == parts.len(),
        0 <= k < joined_pages(parts, memos).len(),
    ensures
        exists|i: int, j: int|
            0 <= i < parts.len() && 0 <= j < parts[i].1.len() && joined_pages(parts, memos)[k]
                == #[trigger] memos[i][#[trigger] parts[i].1[j]],
    decreases parts.len(),
{
    let n = parts.len() - 1;
    let before = joined_pages(parts.drop_last(), memos.drop_last());
    if k < before.len() {
        lemma_joined_page_is_a_copy(parts.drop_last(), memos.drop_last(), k);
        let (i, j) = choose|i: int, j: int|
            0 <= i < parts.drop_last().len() && 0 <= j < parts.drop_last()[i].1.len() && before[k]
                == #[trigger] memos.drop_last()[i][#[trigger] parts.drop_last()[i].1[j]];
        assert(parts.drop_last()[i] == parts[i]);
        assert(memos.drop_last()[i] == memos[i]);
        assert(joined_pages(parts, memos)[k] == memos[i][parts[i].1[j]]);
    } else {
        let j = k - before.len();
        assert(joined_pages(parts, memos)[k] == memos[n][parts[n].1[j]]);
    }
}

/// An assembled document has no dangling reference: whatever an object of
/// it refers to is an object of it, and so is the catalog that its trailer
/// names.
pub proof fn law_assembled_has_no_dangling_reference(
    parts: Seq<Part>,
    memos: Seq<IdMap>,
    result: ObjectGraph,
    pages_id: ObjectId,
    catalog_id: ObjectId,
    from: ObjectId,
    to: ObjectId,
)
    requires
        assembled(parts, memos, result, pages_id, catalog_id),
        result.objects@.contains_key(from),
        crate::graph::refs(result.objects@[from]).contains(to),
    ensures
        result.objects@.contains_key(to),
        result.objects@.contains_key(catalog_id),
        dict_get(result.trailer@, ascii("Root"@)) == Some(ObjectModel::Reference(catalog_id)),
{
    law_assembled_lists_all_pages(parts, memos, result, pages_id, catalog_id);
    reveal(assembled);
    reveal(gathered);
    lemma_fresh_trailer(catalog_id);
    let table = result.objects@;
    let rest = table.remove(pages_id).remove(catalog_id);
    let pages = joined_pages(parts, memos);
    if from == pages_id {
        crate::pages::law_count_is_page_count(pages);
        assert(pages.contains(to));
        let k = choose|k: int| 0 <= k < pages.len() && pages[k] == to;
        lemma_joined_page_is_a_copy(parts, memos, k);
        let (i, j) = choose|i: int, j: int|
            0 <= i < parts.len() && 0 <= j < parts[i].1.len() && pages[k]
                == #[trigger] memos[i][#[trigger] parts[i].1[j]];
        let p = parts[i].1[j];
        assert(parts[i].1.to_set().contains(p));
        crate::graph::lemma_reached_root(parts[i].0, Set::empty(), parts[i].1.to_set(), p);
        assert(embedded(parts[i].0, parts[i].1.to_set(), memos[i], table));
        assert(memos[i].contains_key(p));
    } else if from == catalog_id {
        reveal_strlit("Type");
        reveal_strlit("Pages");
        reveal_strlit("Catalog");
        let node = catalog_node(pages_id)->Dictionary_0;
        let i = choose|i: int|
            0 <= i < node.len() && crate::graph::refs((#[trigger] node[i]).1).contains(to);
        assert(i == 1);
    } else {
        assert(rest.contains_key(from));
        let (i, o) = choose|i: int, o: ObjectId|
            0 <= i < parts.len() && #[trigger] memos[i].contains_key(o) && memos[i][o] == from;
        assert(embedded(parts[i].0, parts[i].1.to_set(), memos[i], table));
        crate::graph::lemma_remap_refs_only(parts[i].0[o], memos[i], to);
        let r = choose|r: ObjectId|
            #[trigger] crate::graph::refs(parts[i].0[o]).contains(r) && memos[i][r] == to;
        assert(memos[i].contains_key(r));
    }
}

} // verus!
