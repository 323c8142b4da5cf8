//! A document in memory: its object table and its trailer.

use crate::object::{Dictionary, ObjectId, ObjectModel};
use crate::table::ObjectTable;
use vstd::prelude::*;

verus! {

/// The objects of a document and the trailer that names its catalog and,
/// where there is one, its information dictionary.
pub struct ObjectGraph {
    pub objects: ObjectTable,
    pub trailer: Dictionary,
}

impl ObjectGraph {
    /// A document without objects, with an empty trailer.
    pub fn new() -> (graph: ObjectGraph)
        ensures
            graph.objects@ == Map::<ObjectId, ObjectModel>::empty(),
            graph.objects.max_id() == 0,
            graph.trailer@ == Seq::<(Seq<u8>, ObjectModel)>::empty(),
    {
        ObjectGraph { objects: ObjectTable::new(), trailer: Dictionary::new() }
    }
}

} // verus!
