//! Canonical node records.
//!
//! A node is a logical item with a payload reference, an explicit set of
//! tags, and two caller-supplied timestamps. Nodes are soft-deleted: a
//! tombstoned record keeps its id so references stay resolvable.

use vstd::prelude::*;

use crate::node_type::{NodeType, NodeTypeView};
use crate::tag::TagId;

verus! {

/// Identifier of a node; allocated densely and never reused.
#[derive(Clone, Copy, Debug, PartialEq, Eq, Structural)]
pub struct NodeId(pub u32);

impl Default for NodeId {
    fn default() -> (r: NodeId)
        ensures
            r.0 == 0,
    {
        NodeId(0)
    }
}

impl From<u32> for NodeId {
    fn from(value: u32) -> (r: NodeId) {
        NodeId(value)
    }
}

impl vstd::std_specs::convert::FromSpecImpl<u32> for NodeId {
    open spec fn obeys_from_spec() -> bool {
        true
    }

    open spec fn from_spec(value: u32) -> NodeId {
        NodeId(value)
    }
}

/// A canonical node record.
#[derive(Debug)]
pub struct NodeRecord {
    pub id: NodeId,
    pub deleted: bool,
    pub data_ref: NodeType,
    pub tags: Vec<TagId>,
    pub date_created: String,
    pub date_updated: String,
}

/// The mathematical content of a [`NodeRecord`].
pub struct NodeView {
    pub id: u32,
    pub deleted: bool,
    pub data_ref: NodeTypeView,
    pub tags: Seq<u32>,
    pub date_created: Seq<char>,
    pub date_updated: Seq<char>,
}

/// The tag ids of a record as plain integers.
pub open spec fn tag_ids(tags: Seq<TagId>) -> Seq<u32> {
    tags.map_values(|t: TagId| t.0)
}

impl View for NodeRecord {
    type V = NodeView;

    open spec fn view(&self) -> NodeView {
        NodeView {
            id: self.id.0,
            deleted: self.deleted,
            data_ref: self.data_ref@,
            tags: tag_ids(self.tags@),
            date_created: self.date_created@,
            date_updated: self.date_updated@,
        }
    }
}

impl DeepView for NodeRecord {
    type V = NodeView;

    open spec fn deep_view(&self) -> NodeView {
        self@
    }
}

impl NodeRecord {
    /// Creates a live record with the given payload, tags, and timestamps.
    pub fn new(
        id: NodeId,
        data: NodeType,
        tags: Vec<TagId>,
        date_created: String,
        date_updated: String,
    ) -> (r: NodeRecord)
        ensures
            r@ == (NodeView {
                id: id.0,
                deleted: false,
                data_ref: data@,
                tags: tag_ids(tags@),
                date_created: date_created@,
                date_updated: date_updated@,
            }),
    {
        NodeRecord { id, deleted: false, data_ref: data, tags, date_created, date_updated }
    }

    /// The node's id.
    pub fn get_id(&self) -> (r: &NodeId)
        ensures
            r.0 == self@.id,
    {
        &self.id
    }

    /// Whether the record is tombstoned.
    pub fn get_deleted(&self) -> (r: &bool)
        ensures
            r == self@.deleted,
    {
        &self.deleted
    }

    /// The node's payload reference.
    pub fn get_data_ref(&self) -> (r: &NodeType)
        ensures
            r@ == self@.data_ref,
    {
        &self.data_ref
    }

    /// The node's explicit tag list.
    pub fn get_tags(&self) -> (r: &Vec<TagId>)
        ensures
            tag_ids(r@) == self@.tags,
    {
        &self.tags
    }

    /// The node's creation timestamp, as the caller supplied it.
    pub fn get_date_created(&self) -> (r: &String)
        ensures
            r@ == self@.date_created,
    {
        &self.date_created
    }

    /// The node's last-update timestamp, as the caller supplied it.
    pub fn get_date_updated(&self) -> (r: &String)
        ensures
            r@ == self@.date_updated,
    {
        &self.date_updated
    }
}

impl Clone for NodeRecord {
    fn clone(&self) -> (r: Self)
        ensures
            r@ == self@,
    {
        let r = NodeRecord {
            id: self.id,
            deleted: self.deleted,
            data_ref: self.data_ref.clone(),
            tags: vstd::slice::slice_to_vec(self.tags.as_slice()),
            date_created: self.date_created.clone(),
            date_updated: self.date_updated.clone(),
        };
        proof {
            assert(r.tags@ =~= self.tags@);
            assert(r@.tags =~= self@.tags);
        }
        r
    }
}

} // verus!
