//! The page tree: which objects are pages, in which order a document lists
//! them, and how a page tree is built over a list of pages.

use crate::document::ObjectGraph;
use crate::error::ParseError;
use crate::graph::TableModel;
use crate::names::{ascii, name};
use crate::object::{
    bytes_eq, dict_first, dict_get, dict_set, items_model, lemma_dict_first_unique, DictModel,
    Dictionary, Object, ObjectId, ObjectModel,
};
use crate::table::ObjectTable;
use vstd::prelude::*;

verus! {

/// What an identifier stands for in a page tree.
pub enum NodeKind {
    /// A page: a leaf of the tree.
    Page,
    /// An inner node, with its children in order.
    Pages(Seq<ObjectId>),
    /// Neither: absent, no dictionary, or of another type.
    Other,
}

/// What an identifier stands for in a page tree, as found in a table.
#[derive(Debug, PartialEq, Eq)]
pub enum Node {
    Page,
    Pages(Vec<ObjectId>),
    Other,
}

impl View for Node {
    type V = NodeKind;

    open spec fn view(&self) -> NodeKind {
        match self {
            Node::Page => NodeKind::Page,
            Node::Pages(kids) => NodeKind::Pages(kids@),
            Node::Other => NodeKind::Other,
        }
    }
}

/// The identifiers that the references among `items` name, in order; what
/// is no reference is passed over.
pub open spec fn reference_items(items: Seq<ObjectModel>) -> Seq<ObjectId>
    decreases items.len(),
{
    if items.len() == 0 {
        Seq::empty()
    } else {
        let rest = reference_items(items.drop_last());
        match items.last() {
            ObjectModel::Reference(id) => rest.push(id),
            _ => rest,
        }
    }
}

/// The children that an inner node lists under `Kids`.
pub open spec fn kids_of(dict: DictModel) -> Seq<ObjectId> {
    match dict_get(dict, ascii("Kids"@)) {
        Some(ObjectModel::Array(items)) => reference_items(items),
        _ => Seq::empty(),
    }
}

/// What `id` stands for in `table`: a dictionary of type `Page` is a page,
/// one of type `Pages` an inner node.
pub open spec fn node_kind(table: TableModel, id: ObjectId) -> NodeKind {
    if !table.contains_key(id) {
        NodeKind::Other
    } else {
        match table[id] {
            ObjectModel::Dictionary(dict) => match dict_get(dict, ascii("Type"@)) {
                Some(ObjectModel::Name(kind)) => if kind == ascii("Page"@) {
                    NodeKind::Page
                } else if kind == ascii("Pages"@) {
                    NodeKind::Pages(kids_of(dict))
                } else {
                    NodeKind::Other
                },
                _ => NodeKind::Other,
            },
            _ => NodeKind::Other,
        }
    }
}

/// The pages found from `pending`, in order: a page is listed, an inner
/// node gives way to its children, anything else is passed over. `budget`
/// bounds how many inner nodes are opened, so that a tree that leads back
/// into itself is left after finitely many steps; an inner node met with
/// no budget left is passed over.
pub open spec fn walk(table: TableModel, pending: Seq<ObjectId>, budget: nat) -> Seq<ObjectId>
    decreases budget, pending.len(),
{
    if pending.len() == 0 {
        Seq::empty()
    } else {
        let rest = pending.drop_first();
        match node_kind(table, pending[0]) {
            NodeKind::Page => seq![pending[0]] + walk(table, rest, budget),
            NodeKind::Pages(kids) => if budget > 0 {
                walk(table, kids + rest, (budget - 1) as nat)
            } else {
                walk(table, rest, budget)
            },
            NodeKind::Other => walk(table, rest, budget),
        }
    }
}

/// The catalog of a document: the dictionary that the trailer names under
/// `Root`.
pub open spec fn catalog_of(table: TableModel, trailer: DictModel) -> Option<DictModel> {
    match dict_get(trailer, ascii("Root"@)) {
        Some(ObjectModel::Reference(root)) => if table.contains_key(root) {
            match table[root] {
                ObjectModel::Dictionary(catalog) => Some(catalog),
                _ => None,
            }
        } else {
            None
        },
        _ => None,
    }
}

/// The pages of a document in reading order, where it has a catalog: those
/// found from the node that the catalog names under `Pages`, with as many
/// inner nodes opened as the table has objects at most. Page `n`, counted
/// from 1, is at index `n - 1`.
pub open spec fn page_list(table: TableModel, trailer: DictModel) -> Option<Seq<ObjectId>> {
    match catalog_of(table, trailer) {
        Some(catalog) => Some(
            match dict_get(catalog, ascii("Pages"@)) {
                Some(ObjectModel::Reference(root)) => walk(table, seq![root], table.dom().len()),
                _ => Seq::empty(),
            },
        ),
        None => None,
    }
}

/// The identifiers that the references among `items` name, in order.
pub fn reference_ids(items: &Vec<Object>) -> (ids: Vec<ObjectId>)
    ensures
        ids@ == reference_items(items_model(items@)),
{
    let ghost models = items_model(items@);
    let mut ids: Vec<ObjectId> = Vec::new();
    let mut i: usize = 0;
    assert(models.take(0) =~= Seq::<ObjectModel>::empty());
    while i < items.len()
        invariant
            0 <= i <= items.len(),
            models == items_model(items@),
            ids@ == reference_items(models.take(i as int)),
        decreases items.len() - i,
    {
        proof {
            assert(models.take(i + 1).drop_last() =~= models.take(i as int));
            assert(models.take(i + 1).last() == items@[i as int]@);
        }
        match &items[i] {
            Object::Reference(id) => {
                ids.push(*id);
            },
            _ => {},
        }
        i += 1;
    }
    assert(models.take(items.len() as int) =~= models);
    ids
}

/// What `id` stands for in the page tree of `table`.
pub fn node_at(table: &ObjectTable, id: ObjectId) -> (node: Node)
    ensures
        node@ == node_kind(table@, id),
{
    proof {
        reveal_strlit("Type");
        reveal_strlit("Page");
        reveal_strlit("Pages");
        reveal_strlit("Kids");
    }
    let dict = match table.get(id) {
        Ok(Object::Dictionary(dict)) => dict,
        _ => {
            return Node::Other;
        },
    };
    let kind = match dict.get(name("Type").as_slice()) {
        Some(Object::Name(kind)) => kind,
        _ => {
            return Node::Other;
        },
    };
    if bytes_eq(kind.as_slice(), name("Page").as_slice()) {
        Node::Page
    } else if bytes_eq(kind.as_slice(), name("Pages").as_slice()) {
        match dict.get(name("Kids").as_slice()) {
            Some(Object::Array(items)) => Node::Pages(reference_ids(items)),
            _ => Node::Pages(Vec::new()),
        }
    } else {
        Node::Other
    }
}

/// The pages found from `root`, in order.
pub fn walk_pages(table: &ObjectTable, root: ObjectId) -> (pages: Vec<ObjectId>)
    ensures
        pages@ == walk(table@, seq![root], table@.dom().len()),
{
    let ghost goal = walk(table@, seq![root], table@.dom().len());
    let mut pages: Vec<ObjectId> = Vec::new();
    let mut stack: Vec<ObjectId> = Vec::new();
    stack.push(root);
    let mut budget: usize = table.len();
    assert(stack@.reverse() =~= seq![root]);
    assert(pages@ + goal =~= goal);
    while stack.len() > 0
        invariant
            pages@ + walk(table@, stack@.reverse(), budget as nat) == goal,
        decreases budget, stack.len(),
    {
        let ghost pending = stack@.reverse();
        let ghost listed = pages@;
        let id = stack.pop().unwrap();
        let ghost rest = stack@.reverse();
        proof {
            assert(pending[0] == id);
            assert(rest =~= pending.drop_first());
        }
        match node_at(table, id) {
            Node::Page => {
                pages.push(id);
                assert(pages@ + walk(table@, rest, budget as nat) =~= listed + (seq![id] + walk(
                    table@,
                    rest,
                    budget as nat,
                )));
            },
            Node::Pages(kids) => {
                if budget > 0 {
                    budget -= 1;
                    let mut k: usize = kids.len();
                    assert(kids@.subrange(k as int, kids.len() as int) + rest =~= rest);
                    while k > 0
                        invariant
                            0 <= k <= kids.len(),
                            stack@.reverse() == kids@.subrange(k as int, kids.len() as int) + rest,
                        decreases k,
                    {
                        let ghost before = stack@;
                        k -= 1;
                        stack.push(kids[k]);
                        assert(stack@.reverse() =~= seq![kids@[k as int]] + before.reverse());
                        assert(seq![kids@[k as int]] + (kids@.subrange(
                            k + 1,
                            kids.len() as int,
                        ) + rest) =~= kids@.subrange(k as int, kids.len() as int) + rest);
                    }
                    assert(kids@.subrange(0, kids.len() as int) =~= kids@);
                }
            },
            Node::Other => {},
        }
    }
    assert(stack@.reverse() =~= Seq::<ObjectId>::empty());
    assert(pages@ + Seq::<ObjectId>::empty() =~= pages@);
    pages
}

/// The pages of a document in reading order. A document without a catalog
/// has no page list.
pub fn page_ids(graph: &ObjectGraph) -> (r: Result<Vec<ObjectId>, ParseError>)
    ensures
        match r {
            Ok(pages) => page_list(graph.objects@, graph.trailer@) == Some(pages@),
            Err(e) => e is MissingCatalog && page_list(graph.objects@, graph.trailer@) is None,
        },
{
    proof {
        reveal_strlit("Root");
        reveal_strlit("Pages");
    }
    let root = match graph.trailer.get(name("Root").as_slice()) {
        Some(Object::Reference(root)) => *root,
        _ => {
            return Err(ParseError::MissingCatalog);
        },
    };
    let catalog = match graph.objects.get(root) {
        Ok(Object::Dictionary(catalog)) => catalog,
        _ => {
            return Err(ParseError::MissingCatalog);
        },
    };
    match catalog.get(name("Pages").as_slice()) {
        Some(Object::Reference(pages)) => Ok(walk_pages(&graph.objects, *pages)),
        _ => Ok(Vec::new()),
    }
}

/// References to `ids`, one for each and in order.
pub open spec fn reference_objects(ids: Seq<ObjectId>) -> Seq<ObjectModel> {
    Seq::new(ids.len(), |i: int| ObjectModel::Reference(ids[i]))
}

/// The count that an inner node holds for `n` children: `n`, as far as an
/// integer object can hold it.
pub open spec fn count_of(n: nat) -> int {
    if n <= i64::MAX {
        n as int
    } else {
        i64::MAX as int
    }
}

/// The inner node that lists `kids` as its children and counts them.
pub open spec fn pages_node(kids: Seq<ObjectId>) -> ObjectModel {
    ObjectModel::Dictionary(
        seq![
            (ascii("Type"@), ObjectModel::Name(ascii("Pages"@))),
            (ascii("Kids"@), ObjectModel::Array(reference_objects(kids))),
            (ascii("Count"@), ObjectModel::Integer(count_of(kids.len()))),
        ],
    )
}

/// The catalog that names `pages` as the root of its page tree.
pub open spec fn catalog_node(pages: ObjectId) -> ObjectModel {
    ObjectModel::Dictionary(
        seq![
            (ascii("Type"@), ObjectModel::Name(ascii("Catalog"@))),
            (ascii("Pages"@), ObjectModel::Reference(pages)),
        ],
    )
}

/// Among references only, each names its identifier.
pub proof fn lemma_reference_items_of_references(ids: Seq<ObjectId>)
    ensures
        reference_items(reference_objects(ids)) == ids,
    decreases ids.len(),
{
    if ids.len() > 0 {
        lemma_reference_items_of_references(ids.drop_last());
        assert(reference_objects(ids).drop_last() =~= reference_objects(ids.drop_last()));
        assert(ids.drop_last().push(ids.last()) =~= ids);
    } else {
        assert(reference_items(reference_objects(ids)) =~= ids);
    }
}

/// A list of pages is what is found from it, whatever the budget.
pub proof fn lemma_walk_pages_only(table: TableModel, pending: Seq<ObjectId>, budget: nat)
    requires
        forall|i: int| 0 <= i < pending.len() ==> node_kind(table, #[trigger] pending[i]) is Page,
    ensures
        walk(table, pending, budget) == pending,
    decreases pending.len(),
{
    if pending.len() > 0 {
        let rest = pending.drop_first();
        assert(node_kind(table, pending[0]) is Page);
        assert forall|i: int| 0 <= i < rest.len() implies node_kind(table, #[trigger] rest[i]) is Page by {
            assert(rest[i] == pending[i + 1]);
        }
        lemma_walk_pages_only(table, rest, budget);
        assert(seq![pending[0]] + rest =~= pending);
    } else {
        assert(walk(table, pending, budget) =~= pending);
    }
}

/// Whatever is found on a walk is a page.
pub proof fn lemma_walk_finds_pages(table: TableModel, pending: Seq<ObjectId>, budget: nat, i: int)
    requires
        0 <= i < walk(table, pending, budget).len(),
    ensures
        node_kind(table, walk(table, pending, budget)[i]) is Page,
    decreases budget, pending.len(),
{
    if pending.len() > 0 {
        let rest = pending.drop_first();
        match node_kind(table, pending[0]) {
            NodeKind::Page => {
                if i > 0 {
                    lemma_walk_finds_pages(table, rest, budget, i - 1);
                }
            },
            NodeKind::Pages(kids) => {
                if budget > 0 {
                    lemma_walk_finds_pages(table, kids + rest, (budget - 1) as nat, i);
                } else {
                    lemma_walk_finds_pages(table, rest, budget, i);
                }
            },
            NodeKind::Other => {
                lemma_walk_finds_pages(table, rest, budget, i);
            },
        }
    }
}

/// Whatever a document lists as a page is a page.
pub proof fn lemma_listed_pages_are_pages(table: TableModel, trailer: DictModel, i: int)
    requires
        page_list(table, trailer) is Some,
        0 <= i < page_list(table, trailer)->0.len(),
    ensures
        node_kind(table, page_list(table, trailer)->0[i]) is Page,
{
    let catalog = catalog_of(table, trailer)->0;
    match dict_get(catalog, ascii("Pages"@)) {
        Some(ObjectModel::Reference(root)) => {
            lemma_walk_finds_pages(table, seq![root], table.dom().len(), i);
        },
        _ => {},
    }
}

/// Stores an inner node over `pages` and a catalog over that node, both
/// under fresh identifiers, and names the catalog in the trailer. Returns
/// the identifiers of the inner node and of the catalog. The node's count
/// is the number of `pages`.
pub fn build_page_tree(graph: &mut ObjectGraph, pages: &Vec<ObjectId>) -> (ids: (ObjectId, ObjectId))
    requires
        old(graph).objects.max_id() + 2 <= u32::MAX,
    ensures
        ids.0 == (((old(graph).objects.max_id() + 1) as u32, 0u16)),
        ids.1 == (((old(graph).objects.max_id() + 2) as u32, 0u16)),
        !old(graph).objects@.contains_key(ids.0),
        !old(graph).objects@.contains_key(ids.1),
        final(graph).objects@ == old(graph).objects@.insert(ids.0, pages_node(pages@)).insert(
            ids.1,
            catalog_node(ids.0),
        ),
        final(graph).objects.max_id() == old(graph).objects.max_id() + 2,
        final(graph).trailer@ == dict_set(
            old(graph).trailer@,
            ascii("Root"@),
            ObjectModel::Reference(ids.1),
        ),
{
    proof {
        reveal_strlit("Type");
        reveal_strlit("Pages");
        reveal_strlit("Kids");
        reveal_strlit("Count");
        reveal_strlit("Catalog");
        reveal_strlit("Root");
    }
    let mut kids: Vec<Object> = Vec::new();
    let mut i: usize = 0;
    while i < pages.len()
        invariant
            0 <= i <= pages.len(),
            kids.len() == i,
            forall|j: int| 0 <= j < i ==> (#[trigger] kids@[j])@ == ObjectModel::Reference(pages@[j]),
        decreases pages.len() - i,
    {
        kids.push(Object::Reference(pages[i]));
        i += 1;
    }
    assert(items_model(kids@) =~= reference_objects(pages@));
    let mut node: Vec<(Vec<u8>, Object)> = Vec::new();
    node.push((name("Type"), Object::Name(name("Pages"))));
    node.push((name("Kids"), Object::Array(kids)));
    let count: i64 = if pages.len() as u64 > i64::MAX as u64 {
        i64::MAX
    } else {
        pages.len() as i64
    };
    node.push((name("Count"), Object::Integer(count)));
    let node = Dictionary { entries: node };
    assert(node@ =~= pages_node(pages@)->Dictionary_0);
    let pages_id = graph.objects.allocate(Object::Dictionary(node));
    let mut catalog: Vec<(Vec<u8>, Object)> = Vec::new();
    catalog.push((name("Type"), Object::Name(name("Catalog"))));
    catalog.push((name("Pages"), Object::Reference(pages_id)));
    let catalog = Dictionary { entries: catalog };
    assert(catalog@ =~= catalog_node(pages_id)->Dictionary_0);
    let catalog_id = graph.objects.allocate(Object::Dictionary(catalog));
    graph.trailer.set(name("Root"), Object::Reference(catalog_id));
    (pages_id, catalog_id)
}

/// A document whose trailer names a catalog over an inner node that lists
/// pages only has exactly those pages, in that order.
pub proof fn law_built_tree_lists_its_pages(
    table: TableModel,
    trailer: DictModel,
    kids: Seq<ObjectId>,
    pages_id: ObjectId,
    catalog_id: ObjectId,
)
    requires
        table.dom().finite(),
        table.contains_key(pages_id),
        table.contains_key(catalog_id),
        table[pages_id] == pages_node(kids),
        table[catalog_id] == catalog_node(pages_id),
        dict_get(trailer, ascii("Root"@)) == Some(ObjectModel::Reference(catalog_id)),
        forall|i: int| 0 <= i < kids.len() ==> node_kind(table, #[trigger] kids[i]) is Page,
    ensures
        page_list(table, trailer) == Some(kids),
{
    reveal_strlit("Type");
    reveal_strlit("Pages");
    reveal_strlit("Page");
    reveal_strlit("Kids");
    reveal_strlit("Count");
    reveal_strlit("Catalog");
    reveal_strlit("Root");
    let catalog = catalog_node(pages_id)->Dictionary_0;
    let node = pages_node(kids)->Dictionary_0;
    assert(ascii("Pages"@) != ascii("Type"@)) by {
        assert(ascii("Pages"@).len() != ascii("Type"@).len());
    }
    assert(ascii("Kids"@) != ascii("Type"@)) by {
        assert(ascii("Kids"@)[0] != ascii("Type"@)[0]);
    }
    assert(ascii("Pages"@) != ascii("Page"@)) by {
        assert(ascii("Pages"@).len() != ascii("Page"@).len());
    }
    assert(dict_first(catalog, ascii("Pages"@), 1));
    lemma_dict_first_unique(catalog, ascii("Pages"@), 1);
    assert(dict_first(node, ascii("Type"@), 0));
    lemma_dict_first_unique(node, ascii("Type"@), 0);
    assert(dict_first(node, ascii("Kids"@), 1));
    lemma_dict_first_unique(node, ascii("Kids"@), 1);
    lemma_reference_items_of_references(kids);
    assert(node_kind(table, pages_id) == NodeKind::Pages(kids));
    assert(table.dom().len() > 0) by {
        if table.dom().len() == 0 {
            assert(table.dom().contains(pages_id));
        }
    }
    let budget = table.dom().len();
    let pending = seq![pages_id];
    assert(pending.drop_first() =~= Seq::<ObjectId>::empty());
    assert(kids + pending.drop_first() =~= kids);
    lemma_walk_pages_only(table, kids, (budget - 1) as nat);
    assert(walk(table, pending, budget) == walk(table, kids + pending.drop_first(), (budget - 1) as nat));
}

/// The inner node of a built page tree counts the pages that the document
/// lists, and refers to them and to nothing else.
pub proof fn law_count_is_page_count(kids: Seq<ObjectId>)
    ensures
        dict_get(pages_node(kids)->Dictionary_0, ascii("Count"@)) == Some(
            ObjectModel::Integer(count_of(kids.len())),
        ),
        kids.len() <= i64::MAX ==> count_of(kids.len()) == kids.len(),
        forall|id: ObjectId| crate::graph::refs(pages_node(kids)).contains(id) <==> kids.contains(id),
{
    reveal_strlit("Type");
    reveal_strlit("Kids");
    reveal_strlit("Count");
    let node = pages_node(kids)->Dictionary_0;
    assert(ascii("Count"@) != ascii("Type"@)) by {
        assert(ascii("Count"@).len() != ascii("Type"@).len());
    }
    assert(ascii("Count"@) != ascii("Kids"@)) by {
        assert(ascii("Count"@).len() != ascii("Kids"@).len());
    }
    assert(dict_first(node, ascii("Count"@), 2));
    lemma_dict_first_unique(node, ascii("Count"@), 2);
    let items = reference_objects(kids);
    assert forall|id: ObjectId| crate::graph::refs(pages_node(kids)).contains(id) implies kids.contains(
        id,
    ) by {
        let i = choose|i: int|
            0 <= i < node.len() && crate::graph::refs((#[trigger] node[i]).1).contains(id);
        assert(i == 1);
        let j = choose|j: int|
            0 <= j < items.len() && crate::graph::refs(#[trigger] items[j]).contains(id);
        assert(kids[j] == id);
    }
    assert forall|id: ObjectId| kids.contains(id) implies crate::graph::refs(pages_node(kids)).contains(
        id,
    ) by {
        let j = choose|j: int| 0 <= j < kids.len() && kids[j] == id;
        assert(crate::graph::refs(items[j]).contains(id));
        assert(crate::graph::refs(node[1].1).contains(id));
    }
}

} // verus!
