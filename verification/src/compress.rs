//! Compressing the streams of a document.

use crate::document::ObjectGraph;
use crate::graph::TableModel;
use crate::names::{ascii, name};
use crate::object::{dict_has, dict_set, Object, ObjectId, ObjectModel};
use crate::pages::{count_of, node_kind, page_list, walk};
use vstd::prelude::*;

verus! {

/// What compressing leaves of a payload: the bytes, and whether they are
/// now deflated.
pub uninterp spec fn deflated(content: Seq<u8>) -> (Seq<u8>, bool);

/// Compresses a payload with `lopdf::Stream::compress`, on a stream that
/// has no filter yet, and hands back the payload that the stream then
/// holds and whether the stream got the filter `FlateDecode`. As the
/// source of `compress` shows, the payload is replaced only together with
/// the filter, and only by one that is more than 19 bytes shorter. The
/// deflated bytes are only named.
#[verifier::external_body]
fn deflate(content: &[u8]) -> (r: (Vec<u8>, bool))
    ensures
        (r.0@, r.1) == deflated(content@),
        !r.1 ==> r.0@ == content@,
        r.1 ==> r.0@.len() + 19 < content@.len(),
{
    let mut stream = lopdf::Stream::new(lopdf::Dictionary::new(), content.to_vec());
    let _ = stream.compress();
    let filtered = stream.dict.has(b"Filter");
    (stream.content, filtered)
}

/// `object` after compression: a stream without a filter whose payload
/// deflates holds the deflated payload, the filter `FlateDecode` and the
/// new length; anything else is as it was.
pub open spec fn compressed(object: ObjectModel) -> ObjectModel {
    match object {
        ObjectModel::Stream(dict, content) => if !dict_has(dict, ascii("Filter"@)) && deflated(
            content,
        ).1 {
            ObjectModel::Stream(
                dict_set(
                    dict_set(dict, ascii("Filter"@), ObjectModel::Name(ascii("FlateDecode"@))),
                    ascii("Length"@),
                    ObjectModel::Integer(count_of(deflated(content).0.len())),
                ),
                deflated(content).0,
            )
        } else {
            object
        },
        _ => object,
    }
}

/// Compresses `object`, where it is a stream without a filter.
pub fn compress_object(object: &mut Object)
    ensures
        final(object)@ == compressed(old(object)@),
{
    proof {
        reveal_strlit("Filter");
        reveal_strlit("FlateDecode");
        reveal_strlit("Length");
    }
    match object {
        Object::Stream(stream) => {
            if !stream.dict.has(name("Filter").as_slice()) {
                let (content, filtered) = deflate(stream.content.as_slice());
                if filtered {
                    let length: i64 = if content.len() as u64 > i64::MAX as u64 {
                        i64::MAX
                    } else {
                        content.len() as i64
                    };
                    stream.dict.set(name("Filter"), Object::Name(name("FlateDecode")));
                    stream.dict.set(name("Length"), Object::Integer(length));
                    stream.content = content;
                }
            }
        },
        _ => {},
    }
}

/// Compresses every stream of the document that has no filter yet.
pub fn compress(graph: &mut ObjectGraph)
    ensures
        final(graph).trailer@ == old(graph).trailer@,
        final(graph).objects.max_id() == old(graph).objects.max_id(),
        final(graph).objects@.dom() == old(graph).objects@.dom(),
        forall|id: ObjectId| #[trigger]
            old(graph).objects@.contains_key(id) ==> final(graph).objects@[id] == compressed(
                old(graph).objects@[id],
            ),
{
    let ids = graph.objects.ids();
    let ghost before = graph.objects@;
    let mut i: usize = 0;
    while i < ids.len()
        invariant
            0 <= i <= ids.len(),
            ids@.no_duplicates(),
            ids@.to_set() == before.dom(),
            graph.trailer@ == old(graph).trailer@,
            graph.objects.max_id() == old(graph).objects.max_id(),
            graph.objects@.dom() == before.dom(),
            forall|j: int| 0 <= j < i ==> graph.objects@[#[trigger] ids@[j]] == compressed(before[ids@[j]]),
            forall|j: int| i <= j < ids.len() ==> graph.objects@[#[trigger] ids@[j]] == before[ids@[j]],
        decreases ids.len() - i,
    {
        let id = ids[i];
        let ghost table = graph.objects@;
        assert(ids@.to_set().contains(ids@[i as int]));
        match graph.objects.get_mut(id) {
            Ok(object) => {
                compress_object(object);
            },
            Err(_) => {},
        }
        proof {
            assert(graph.objects@.dom() =~= before.dom());
            assert forall|j: int| 0 <= j < ids.len() && j != i implies graph.objects@[#[trigger] ids@[j]]
                == table[ids@[j]] by {
                assert(ids@[j] != ids@[i as int]);
            }
        }
        i += 1;
    }
    proof {
        assert forall|id: ObjectId| #[trigger] before.contains_key(id) implies graph.objects@[id]
            == compressed(before[id]) by {
            assert(ids@.to_set().contains(id));
            let j = choose|j: int| 0 <= j < ids@.len() && ids@[j] == id;
            assert(graph.objects@[ids@[j]] == compressed(before[ids@[j]]));
        }
    }
}

/// `after` holds the objects of `table`, each compressed.
pub open spec fn compressed_table(table: TableModel, after: TableModel) -> bool {
    &&& after.dom() == table.dom()
    &&& forall|id: ObjectId| #[trigger] table.contains_key(id) ==> after[id] == compressed(table[id])
}

/// Compression leaves what is found on a walk as it is.
pub proof fn lemma_compress_keeps_walk(
    table: TableModel,
    after: TableModel,
    pending: Seq<ObjectId>,
    budget: nat,
)
    requires
        compressed_table(table, after),
    ensures
        walk(after, pending, budget) == walk(table, pending, budget),
    decreases budget, pending.len(),
{
    if pending.len() > 0 {
        let id = pending[0];
        let rest = pending.drop_first();
        assert(node_kind(after, id) == node_kind(table, id)) by {
            if table.contains_key(id) {
                assert(after.dom().contains(id));
                assert(after[id] == compressed(table[id]));
            } else {
                assert(!after.dom().contains(id));
            }
        }
        match node_kind(table, id) {
            crate::pages::NodeKind::Page => {
                lemma_compress_keeps_walk(table, after, rest, budget);
            },
            crate::pages::NodeKind::Pages(kids) => {
                if budget > 0 {
                    lemma_compress_keeps_walk(table, after, kids + rest, (budget - 1) as nat);
                } else {
                    lemma_compress_keeps_walk(table, after, rest, budget);
                }
            },
            crate::pages::NodeKind::Other => {
                lemma_compress_keeps_walk(table, after, rest, budget);
            },
        }
    }
}

/// Compression changes streams only: a document lists the same pages
/// before and after.
pub proof fn law_compress_keeps_pages(
    table: TableModel,
    after: TableModel,
    trailer: Seq<(Seq<u8>, ObjectModel)>,
)
    requires
        compressed_table(table, after),
    ensures
        page_list(after, trailer) == page_list(table, trailer),
        forall|id: ObjectId|
            table.contains_key(id) && !(table[id] is Stream) ==> #[trigger] after[id] == table[id],
{
    match crate::object::dict_get(trailer, ascii("Root"@)) {
        Some(ObjectModel::Reference(root)) => {
            if table.contains_key(root) {
                assert(after.dom().contains(root));
                assert(after[root] == compressed(table[root]));
                match table[root] {
                    ObjectModel::Dictionary(catalog) => {
                        match crate::object::dict_get(catalog, ascii("Pages"@)) {
                            Some(ObjectModel::Reference(pages)) => {
                                lemma_compress_keeps_walk(
                                    table,
                                    after,
                                    seq![pages],
                                    table.dom().len(),
                                );
                            },
                            _ => {},
                        }
                    },
                    _ => {},
                }
            } else {
                assert(!after.dom().contains(root));
            }
        },
        _ => {},
    }
    assert forall|id: ObjectId| table.contains_key(id) && !(table[id] is Stream) implies #[trigger] after[id]
        == table[id] by {
        assert(after[id] == compressed(table[id]));
    }
}

} // verus!
