//! The repository facade: canonical node/tag maps, derived indexes, id
//! allocation, and canonical (de)serialization.
//!
//! Callers mutate only through this facade. Every mutation first writes the
//! canonical maps, then rebuilds all derived indexes in full (path lookup,
//! then hierarchy, then membership), so between calls the indexes are always
//! exactly the derived image of canonical state — that is this type's
//! well-formedness invariant, [`Repository::wf`].

use vstd::prelude::*;

use vstd::pervasive::VecAdditionalExecFns;

use crate::assoc::{kv_get, kv_map, skv_get, skv_map};
use crate::bitmap::{
    bitmap_clone, bitmap_difference, bitmap_elems, bitmap_insert, bitmap_intersection, bitmap_new,
    bitmap_to_vec, bitmap_union,
};
use crate::node::{tag_ids, NodeId, NodeRecord, NodeView};
use crate::tag::{TagHierarchyIndex, TagId, TagMembershipIndex, TagPathIndex, TagRecord, TagView};

verus! {

// ---------------------------------------------------------------------
// The mathematical model of the derived indexes.
// ---------------------------------------------------------------------

/// Path segments joined with the canonical separator.
pub open spec fn join_path(path: Seq<Seq<char>>) -> Seq<char>
    decreases path.len(),
{
    if path.len() == 0 {
        Seq::empty()
    } else if path.len() == 1 {
        path[0]
    } else {
        join_path(path.drop_last()) + seq!['/'] + path.last()
    }
}

/// The canonical node map: each record keyed by its id, later records
/// superseding earlier ones.
pub open spec fn node_map(s: Seq<NodeView>) -> Map<u32, NodeView>
    decreases s.len(),
{
    if s.len() == 0 {
        Map::empty()
    } else {
        node_map(s.drop_last()).insert(s.last().id, s.last())
    }
}

/// The canonical tag map: each record keyed by its id.
pub open spec fn tag_map(s: Seq<TagView>) -> Map<u32, TagView>
    decreases s.len(),
{
    if s.len() == 0 {
        Map::empty()
    } else {
        tag_map(s.drop_last()).insert(s.last().id, s.last())
    }
}

/// The path index derived from a tag sequence: every live tag's joined path
/// mapped to its id, a later tag overriding an earlier one with the same
/// path (the design leaves duplicate live paths to the caller).
pub open spec fn path_index_of(tags: Seq<TagView>) -> Map<Seq<char>, u32>
    decreases tags.len(),
{
    if tags.len() == 0 {
        Map::empty()
    } else {
        let m = path_index_of(tags.drop_last());
        let t = tags.last();
        if t.deleted {
            m
        } else {
            m.insert(join_path(t.path), t.id)
        }
    }
}

/// The first live tag carrying exactly this path, scanning in map order.
pub open spec fn first_live_with_path(tags: Seq<TagView>, path: Seq<Seq<char>>) -> Option<TagView>
    decreases tags.len(),
{
    if tags.len() == 0 {
        None
    } else if !tags[0].deleted && tags[0].path == path {
        Some(tags[0])
    } else {
        first_live_with_path(tags.drop_first(), path)
    }
}

/// The parent a tag derives from its path: the live tag whose path is the
/// tag's path with the last segment removed, if one exists. Tags with a
/// one-segment (or empty) path are roots.
pub open spec fn parent_of(tags: Seq<TagView>, t: TagView) -> Option<u32> {
    if t.path.len() <= 1 {
        None
    } else {
        match first_live_with_path(tags, t.path.drop_last()) {
            Some(p) => Some(p.id),
            None => None,
        }
    }
}

/// The parent map over a prefix of the tag sequence, parents resolved
/// against the full sequence.
pub open spec fn parent_fold(full: Seq<TagView>, s: Seq<TagView>) -> Map<u32, Option<u32>>
    decreases s.len(),
{
    if s.len() == 0 {
        Map::empty()
    } else {
        let m = parent_fold(full, s.drop_last());
        let t = s.last();
        if t.deleted {
            m
        } else {
            m.insert(t.id, parent_of(full, t))
        }
    }
}

/// The hierarchy's parent map: every live tag's id mapped to its derived
/// parent (or none).
pub open spec fn parent_index_of(tags: Seq<TagView>) -> Map<u32, Option<u32>> {
    parent_fold(tags, tags)
}

/// A map's sequence at a key, or the empty sequence.
pub open spec fn seq_get_or_empty(m: Map<u32, Seq<u32>>, k: u32) -> Seq<u32> {
    if m.contains_key(k) {
        m[k]
    } else {
        Seq::empty()
    }
}

/// The children map over a prefix of the tag sequence: the inverse of the
/// parent map, children listed in map order.
pub open spec fn children_fold(full: Seq<TagView>, s: Seq<TagView>) -> Map<u32, Seq<u32>>
    decreases s.len(),
{
    if s.len() == 0 {
        Map::empty()
    } else {
        let m = children_fold(full, s.drop_last());
        let t = s.last();
        if t.deleted {
            m
        } else {
            match parent_of(full, t) {
                Some(p) => m.insert(p, seq_get_or_empty(m, p).push(t.id)),
                None => m,
            }
        }
    }
}

/// The hierarchy's children adjacency.
pub open spec fn children_index_of(tags: Seq<TagView>) -> Map<u32, Seq<u32>> {
    children_fold(tags, tags)
}

/// Adds a value to the set a key holds, creating the set if absent.
pub open spec fn set_add(m: Map<u32, Set<u32>>, k: u32, v: u32) -> Map<u32, Set<u32>> {
    m.insert(
        k,
        (if m.contains_key(k) {
            m[k]
        } else {
            Set::empty()
        }).insert(v),
    )
}

/// The walk bound for ancestor chains starting at tag `t`: its path depth.
/// Each derived parent is exactly one segment shorter, so a chain from `t`
/// takes fewer steps than this.
pub open spec fn fuel_of(tags: Seq<TagView>, t: u32) -> nat {
    if tag_map(tags).contains_key(t) {
        tag_map(tags)[t].path.len()
    } else {
        0
    }
}

/// Inserts `nid` into the set of every strict ancestor of `t`, walking the
/// parent map upward for at most `fuel` steps.
pub open spec fn add_ancestors(
    sub: Map<u32, Set<u32>>,
    pm: Map<u32, Option<u32>>,
    t: u32,
    nid: u32,
    fuel: nat,
) -> Map<u32, Set<u32>>
    decreases fuel,
{
    if fuel == 0 {
        sub
    } else if !pm.contains_key(t) {
        sub
    } else {
        match pm[t] {
            None => sub,
            Some(p) => add_ancestors(set_add(sub, p, nid), pm, p, nid, (fuel - 1) as nat),
        }
    }
}

/// Processes the first `j` tags of one live node: each tag collects the
/// node directly, and every strict ancestor of the tag collects it in its
/// subtree set.
pub open spec fn member_node(
    direct: Map<u32, Set<u32>>,
    sub: Map<u32, Set<u32>>,
    pm: Map<u32, Option<u32>>,
    tags: Seq<TagView>,
    node: NodeView,
    j: nat,
) -> (Map<u32, Set<u32>>, Map<u32, Set<u32>>)
    decreases j,
{
    if j == 0 {
        (direct, sub)
    } else {
        let prev = member_node(direct, sub, pm, tags, node, (j - 1) as nat);
        let t = node.tags[j - 1];
        (set_add(prev.0, t, node.id), add_ancestors(prev.1, pm, t, node.id, fuel_of(tags, t)))
    }
}

/// Processes the first `i` nodes, skipping tombstoned ones.
pub open spec fn member_fold(
    pm: Map<u32, Option<u32>>,
    tags: Seq<TagView>,
    nodes: Seq<NodeView>,
    i: nat,
) -> (Map<u32, Set<u32>>, Map<u32, Set<u32>>)
    decreases i,
{
    if i == 0 {
        (Map::empty(), Map::empty())
    } else {
        let prev = member_fold(pm, tags, nodes, (i - 1) as nat);
        let node = nodes[i - 1];
        if node.deleted {
            prev
        } else {
            member_node(prev.0, prev.1, pm, tags, node, node.tags.len())
        }
    }
}

/// The direct-membership index: per tag id, the set of live nodes that
/// carry it explicitly.
pub open spec fn direct_index_of(nodes: Seq<NodeView>, tags: Seq<TagView>) -> Map<u32, Set<u32>> {
    member_fold(parent_index_of(tags), tags, nodes, nodes.len()).0
}

/// The subtree-membership index: per tag id, the set of live nodes tagged
/// with a strict descendant — never the directly tagged nodes themselves.
pub open spec fn subtree_index_of(nodes: Seq<NodeView>, tags: Seq<TagView>) -> Map<u32, Set<u32>> {
    member_fold(parent_index_of(tags), tags, nodes, nodes.len()).1
}

/// The bitmap map as a map of plain sets.
pub open spec fn sets_of(m: Map<u32, roaring::RoaringBitmap>) -> Map<u32, Set<u32>> {
    m.map_values(|b: roaring::RoaringBitmap| bitmap_elems(b))
}

/// The stored children lists as a map of plain id sequences.
pub open spec fn child_seqs_of(m: Map<u32, Vec<TagId>>) -> Map<u32, Seq<u32>> {
    m.map_values(|v: Vec<TagId>| tag_ids(v@))
}

/// No two records share an id.
pub open spec fn unique_node_ids(s: Seq<NodeView>) -> bool {
    forall|i: int, j: int| 0 <= i < j < s.len() ==> s[i].id != s[j].id
}

/// No two records share an id.
pub open spec fn unique_tag_ids(s: Seq<TagView>) -> bool {
    forall|i: int, j: int| 0 <= i < j < s.len() ==> s[i].id != s[j].id
}

/// Every id leaves room for the next counter value.
pub open spec fn node_ids_bounded(s: Seq<NodeView>) -> bool {
    forall|i: int| 0 <= i < s.len() ==> (#[trigger] s[i]).id < u32::MAX
}

/// Every id leaves room for the next counter value.
pub open spec fn tag_ids_bounded(s: Seq<TagView>) -> bool {
    forall|i: int| 0 <= i < s.len() ==> (#[trigger] s[i]).id < u32::MAX
}

// ---------------------------------------------------------------------
// Facts about the derived maps, used by the membership rebuild.
// ---------------------------------------------------------------------

/// With unique ids, the canonical tag map holds exactly the records of the
/// sequence, each under its own id.
pub proof fn lemma_tag_map_char(s: Seq<TagView>)
    requires
        unique_tag_ids(s),
    ensures
        forall|i: int|
            0 <= i < s.len() ==> tag_map(s).contains_key((#[trigger] s[i]).id) && tag_map(
                s,
            )[s[i].id] == s[i],
        forall|x: u32|
            #[trigger] tag_map(s).contains_key(x) ==> exists|i: int|
                0 <= i < s.len() && (#[trigger] s[i]).id == x,
    decreases s.len(),
{
    if s.len() > 0 {
        let d = s.drop_last();
        assert(unique_tag_ids(d)) by {
            assert(forall|i: int| 0 <= i < d.len() ==> d[i] == s[i]);
        }
        lemma_tag_map_char(d);
        assert forall|i: int| 0 <= i < s.len() implies tag_map(s).contains_key(
            (#[trigger] s[i]).id,
        ) && tag_map(s)[s[i].id] == s[i] by {
            if i < s.len() - 1 {
                assert(d[i] == s[i]);
                assert(s[i].id != s.last().id);
            }
        }
        assert forall|x: u32| #[trigger] tag_map(s).contains_key(x) implies exists|i: int|
            0 <= i < s.len() && (#[trigger] s[i]).id == x by {
            if x == s.last().id {
                assert(s[s.len() - 1].id == x);
            } else {
                assert(tag_map(d).contains_key(x));
                let i = choose|i: int| 0 <= i < d.len() && (#[trigger] d[i]).id == x;
                assert(d[i] == s[i]);
                assert(s[i].id == x);
            }
        }
    }
}

/// The same, for the canonical node map.
pub proof fn lemma_node_map_char(s: Seq<NodeView>)
    requires
        unique_node_ids(s),
    ensures
        forall|i: int|
            0 <= i < s.len() ==> node_map(s).contains_key((#[trigger] s[i]).id) && node_map(
                s,
            )[s[i].id] == s[i],
        forall|x: u32|
            #[trigger] node_map(s).contains_key(x) ==> exists|i: int|
                0 <= i < s.len() && (#[trigger] s[i]).id == x,
    decreases s.len(),
{
    if s.len() > 0 {
        let d = s.drop_last();
        assert(unique_node_ids(d)) by {
            assert(forall|i: int| 0 <= i < d.len() ==> d[i] == s[i]);
        }
        lemma_node_map_char(d);
        assert forall|i: int| 0 <= i < s.len() implies node_map(s).contains_key(
            (#[trigger] s[i]).id,
        ) && node_map(s)[s[i].id] == s[i] by {
            if i < s.len() - 1 {
                assert(d[i] == s[i]);
                assert(s[i].id != s.last().id);
            }
        }
        assert forall|x: u32| #[trigger] node_map(s).contains_key(x) implies exists|i: int|
            0 <= i < s.len() && (#[trigger] s[i]).id == x by {
            if x == s.last().id {
                assert(s[s.len() - 1].id == x);
            } else {
                assert(node_map(d).contains_key(x));
                let i = choose|i: int| 0 <= i < d.len() && (#[trigger] d[i]).id == x;
                assert(d[i] == s[i]);
                assert(s[i].id == x);
            }
        }
    }
}

/// With unique ids, the parent map holds exactly the live tags, each mapped
/// to its derived parent.
pub proof fn lemma_parent_fold_char(full: Seq<TagView>, s: Seq<TagView>)
    requires
        unique_tag_ids(s),
    ensures
        forall|i: int|
            0 <= i < s.len() && !(#[trigger] s[i]).deleted ==> parent_fold(
                full,
                s,
            ).contains_key(s[i].id) && parent_fold(full, s)[s[i].id] == parent_of(full, s[i]),
        forall|x: u32|
            #[trigger] parent_fold(full, s).contains_key(x) ==> exists|i: int|
                0 <= i < s.len() && (#[trigger] s[i]).id == x && !s[i].deleted,
    decreases s.len(),
{
    if s.len() > 0 {
        let d = s.drop_last();
        assert(unique_tag_ids(d)) by {
            assert(forall|i: int| 0 <= i < d.len() ==> d[i] == s[i]);
        }
        lemma_parent_fold_char(full, d);
        assert forall|i: int| 0 <= i < s.len() && !(#[trigger] s[i]).deleted implies parent_fold(
            full,
            s,
        ).contains_key(s[i].id) && parent_fold(full, s)[s[i].id] == parent_of(full, s[i]) by {
            if i < s.len() - 1 {
                assert(d[i] == s[i]);
                assert(s[i].id != s.last().id);
            }
        }
        assert forall|x: u32| #[trigger] parent_fold(full, s).contains_key(x) implies exists|i: int|
            0 <= i < s.len() && (#[trigger] s[i]).id == x && !s[i].deleted by {
            if !s.last().deleted && x == s.last().id {
                assert(s[s.len() - 1].id == x && !s[s.len() - 1].deleted);
            } else {
                assert(parent_fold(full, d).contains_key(x));
                let i = choose|i: int|
                    0 <= i < d.len() && (#[trigger] d[i]).id == x && !d[i].deleted;
                assert(d[i] == s[i]);
                assert(s[i].id == x && !s[i].deleted);
            }
        }
    }
}

/// A found tag really is in the sequence, live, with the searched path.
pub proof fn lemma_first_live_props(tags: Seq<TagView>, path: Seq<Seq<char>>)
    requires
        first_live_with_path(tags, path) is Some,
    ensures
        exists|i: int|
            0 <= i < tags.len() && #[trigger] tags[i] == first_live_with_path(tags, path)->0,
        !(first_live_with_path(tags, path)->0).deleted,
        (first_live_with_path(tags, path)->0).path == path,
    decreases tags.len(),
{
    if !tags[0].deleted && tags[0].path == path {
        assert(tags[0] == first_live_with_path(tags, path)->0);
    } else {
        lemma_first_live_props(tags.drop_first(), path);
        let d = tags.drop_first();
        let i = choose|i: int| 0 <= i < d.len() && #[trigger] d[i] == first_live_with_path(
            d,
            path,
        )->0;
        assert(tags[i + 1] == first_live_with_path(tags, path)->0);
    }
}

/// Along a derived parent edge the path depth falls by exactly one. This is
/// what bounds ancestor walks.
pub proof fn lemma_parent_step(tags: Seq<TagView>, t: u32, p: u32)
    requires
        unique_tag_ids(tags),
        parent_index_of(tags).contains_key(t),
        parent_index_of(tags)[t] == Some(p),
    ensures
        fuel_of(tags, t) >= 2,
        parent_index_of(tags).contains_key(p),
        fuel_of(tags, p) == fuel_of(tags, t) - 1,
{
    let pm = parent_index_of(tags);
    lemma_tag_map_char(tags);
    lemma_parent_fold_char(tags, tags);
    let i = choose|i: int| 0 <= i < tags.len() && (#[trigger] tags[i]).id == t && !tags[i].deleted;
    assert(pm[t] == parent_of(tags, tags[i]));
    assert(tag_map(tags)[t] == tags[i]);
    assert(tags[i].path.len() >= 2);
    let q = first_live_with_path(tags, tags[i].path.drop_last())->0;
    lemma_first_live_props(tags, tags[i].path.drop_last());
    let k = choose|k: int| 0 <= k < tags.len() && #[trigger] tags[k] == q;
    assert(tags[k].id == p);
    assert(tag_map(tags)[p] == tags[k]);
    assert(tags[k].path.len() == tags[i].path.len() - 1);
}

/// One unfolding of the ancestor walk, with the fuel kept exactly at the
/// walked tag's depth.
pub proof fn lemma_add_ancestors_unfold(
    sub: Map<u32, Set<u32>>,
    tags: Seq<TagView>,
    t: u32,
    nid: u32,
)
    requires
        unique_tag_ids(tags),
    ensures
        add_ancestors(sub, parent_index_of(tags), t, nid, fuel_of(tags, t)) == {
            let pm = parent_index_of(tags);
            if pm.contains_key(t) && pm[t] is Some {
                add_ancestors(
                    set_add(sub, pm[t]->0, nid),
                    pm,
                    pm[t]->0,
                    nid,
                    fuel_of(tags, pm[t]->0),
                )
            } else {
                sub
            }
        },
{
    let pm = parent_index_of(tags);
    let fuel = fuel_of(tags, t);
    if pm.contains_key(t) && pm[t] is Some {
        lemma_parent_step(tags, t, pm[t]->0);
    } else {
        if fuel > 0 && pm.contains_key(t) {
            assert(pm[t] is None);
        }
    }
}

// ---------------------------------------------------------------------
// Further model pieces: live filtering, id allocation, queries.
// ---------------------------------------------------------------------

/// The live (non-tombstoned) records, in map order.
pub open spec fn live_nodes(s: Seq<NodeView>) -> Seq<NodeView>
    decreases s.len(),
{
    if s.len() == 0 {
        Seq::empty()
    } else {
        let p = live_nodes(s.drop_last());
        if s.last().deleted {
            p
        } else {
            p.push(s.last())
        }
    }
}

/// The live (non-tombstoned) records, in map order.
pub open spec fn live_tags(s: Seq<TagView>) -> Seq<TagView>
    decreases s.len(),
{
    if s.len() == 0 {
        Seq::empty()
    } else {
        let p = live_tags(s.drop_last());
        if s.last().deleted {
            p
        } else {
            p.push(s.last())
        }
    }
}

/// The ids of the live nodes.
pub open spec fn live_ids(s: Seq<NodeView>) -> Set<u32>
    decreases s.len(),
{
    if s.len() == 0 {
        Set::empty()
    } else {
        let p = live_ids(s.drop_last());
        if s.last().deleted {
            p
        } else {
            p.insert(s.last().id)
        }
    }
}

/// The sequence with every occurrence of one id removed, order kept.
pub open spec fn remove_id(s: Seq<u32>, x: u32) -> Seq<u32>
    decreases s.len(),
{
    if s.len() == 0 {
        Seq::empty()
    } else {
        let p = remove_id(s.drop_last(), x);
        if s.last() == x {
            p
        } else {
            p.push(s.last())
        }
    }
}

/// The first key at or above `c` that the map does not hold. Ids already
/// present — tombstoned ones included — are never handed out again.
pub open spec fn next_free<V>(m: Map<u32, V>, c: u32) -> u32
    decreases u32::MAX - c,
{
    if c == u32::MAX {
        c
    } else if !m.contains_key(c) {
        c
    } else {
        next_free(m, (c + 1) as u32)
    }
}

/// The value a probe can return is never a key the map holds.
pub proof fn lemma_next_free_not_present<V>(m: Map<u32, V>, c: u32, x: u32)
    requires
        m.contains_key(x),
        !m.contains_key(u32::MAX),
    ensures
        next_free(m, c) != x,
    decreases u32::MAX - c,
{
    if c == u32::MAX {
    } else if !m.contains_key(c) {
    } else {
        lemma_next_free_not_present(m, (c + 1) as u32, x);
    }
}

/// The largest node id a state holds, or zero when empty.
pub open spec fn max_node_id(s: Seq<NodeView>) -> nat
    decreases s.len(),
{
    if s.len() == 0 {
        0
    } else {
        let m = max_node_id(s.drop_last());
        if s.last().id >= m {
            s.last().id as nat
        } else {
            m
        }
    }
}

/// The node counter a load reconstructs: one past the largest existing id,
/// or zero for an empty map.
pub open spec fn counter_for_nodes(s: Seq<NodeView>) -> nat {
    if s.len() == 0 {
        0
    } else {
        max_node_id(s) + 1
    }
}

/// The largest tag id a state holds, or zero when empty.
pub open spec fn max_tag_id(s: Seq<TagView>) -> nat
    decreases s.len(),
{
    if s.len() == 0 {
        0
    } else {
        let m = max_tag_id(s.drop_last());
        if s.last().id >= m {
            s.last().id as nat
        } else {
            m
        }
    }
}

/// The tag counter a load reconstructs.
pub open spec fn counter_for_tags(s: Seq<TagView>) -> nat {
    if s.len() == 0 {
        0
    } else {
        max_tag_id(s) + 1
    }
}

/// A map's set at a key, or the empty set.
pub open spec fn set_get_or_empty(m: Map<u32, Set<u32>>, k: u32) -> Set<u32> {
    if m.contains_key(k) {
        m[k]
    } else {
        Set::empty()
    }
}

/// What a boolean tag query denotes: a tag resolves to its effective set
/// (direct members united with subtree members), `And`/`Or` intersect and
/// unite, and `Not` complements against the live node ids.
pub open spec fn eval_query(
    direct: Map<u32, Set<u32>>,
    sub: Map<u32, Set<u32>>,
    live: Set<u32>,
    q: TagQuery,
) -> Set<u32>
    decreases q,
{
    match q {
        TagQuery::Tag(t) => set_get_or_empty(direct, t.0).union(set_get_or_empty(sub, t.0)),
        TagQuery::Or(a, b) => eval_query(direct, sub, live, *a).union(
            eval_query(direct, sub, live, *b),
        ),
        TagQuery::And(a, b) => eval_query(direct, sub, live, *a).intersect(
            eval_query(direct, sub, live, *b),
        ),
        TagQuery::Not(a) => live.difference(eval_query(direct, sub, live, *a)),
    }
}

/// Updating a record in place under its own id is a map insert.
pub proof fn lemma_node_map_update(s: Seq<NodeView>, i: int, v: NodeView)
    requires
        unique_node_ids(s),
        0 <= i < s.len(),
        s[i].id == v.id,
    ensures
        node_map(s.update(i, v)) == node_map(s).insert(v.id, v),
        unique_node_ids(s.update(i, v)),
{
    let s2 = s.update(i, v);
    assert(unique_node_ids(s2)) by {
        assert(forall|k: int| 0 <= k < s.len() && k != i ==> s2[k] == s[k]);
    }
    lemma_node_map_char(s);
    lemma_node_map_char(s2);
    assert forall|x: u32|
        node_map(s2).contains_key(x) == node_map(s).insert(v.id, v).contains_key(x) by {
        if node_map(s2).contains_key(x) {
            let k = choose|k: int| 0 <= k < s2.len() && (#[trigger] s2[k]).id == x;
            if k == i {
            } else {
                assert(s[k].id == x);
            }
        }
        if node_map(s).insert(v.id, v).contains_key(x) {
            if x == v.id {
                assert(s2[i].id == x);
            } else {
                let k = choose|k: int| 0 <= k < s.len() && (#[trigger] s[k]).id == x;
                assert(s2[k].id == x);
            }
        }
    }
    assert forall|x: u32| #[trigger]
        node_map(s2).contains_key(x) implies node_map(s2)[x] == node_map(s).insert(v.id, v)[x] by {
        let k = choose|k: int| 0 <= k < s2.len() && (#[trigger] s2[k]).id == x;
        if x == v.id {
            assert(k == i);
            assert(node_map(s2)[x] == s2[i]);
        } else {
            assert(k != i);
            assert(node_map(s2)[x] == s2[k]);
            assert(node_map(s)[x] == s[k]);
        }
    }
    assert(node_map(s.update(i, v)) =~= node_map(s).insert(v.id, v));
}

/// Updating a record in place under its own id is a map insert.
pub proof fn lemma_tag_map_update(s: Seq<TagView>, i: int, v: TagView)
    requires
        unique_tag_ids(s),
        0 <= i < s.len(),
        s[i].id == v.id,
    ensures
        tag_map(s.update(i, v)) == tag_map(s).insert(v.id, v),
        unique_tag_ids(s.update(i, v)),
{
    let s2 = s.update(i, v);
    assert(unique_tag_ids(s2)) by {
        assert(forall|k: int| 0 <= k < s.len() && k != i ==> s2[k] == s[k]);
    }
    lemma_tag_map_char(s);
    lemma_tag_map_char(s2);
    assert forall|x: u32|
        tag_map(s2).contains_key(x) == tag_map(s).insert(v.id, v).contains_key(x) by {
        if tag_map(s2).contains_key(x) {
            let k = choose|k: int| 0 <= k < s2.len() && (#[trigger] s2[k]).id == x;
            if k == i {
            } else {
                assert(s[k].id == x);
            }
        }
        if tag_map(s).insert(v.id, v).contains_key(x) {
            if x == v.id {
                assert(s2[i].id == x);
            } else {
                let k = choose|k: int| 0 <= k < s.len() && (#[trigger] s[k]).id == x;
                assert(s2[k].id == x);
            }
        }
    }
    assert forall|x: u32| #[trigger]
        tag_map(s2).contains_key(x) implies tag_map(s2)[x] == tag_map(s).insert(v.id, v)[x] by {
        let k = choose|k: int| 0 <= k < s2.len() && (#[trigger] s2[k]).id == x;
        if x == v.id {
            assert(k == i);
            assert(tag_map(s2)[x] == s2[i]);
        } else {
            assert(k != i);
            assert(tag_map(s2)[x] == s2[k]);
            assert(tag_map(s)[x] == s[k]);
        }
    }
    assert(tag_map(s.update(i, v)) =~= tag_map(s).insert(v.id, v));
}

// ---------------------------------------------------------------------
// Exec helpers over paths.
// ---------------------------------------------------------------------

/// Recomputes the node counter from loaded records.
fn compute_node_counter(nodes: &Vec<NodeRecord>) -> (r: u32)
    requires
        node_ids_bounded(nodes.deep_view()),
    ensures
        r == counter_for_nodes(nodes.deep_view()),
{
    let ghost dv = nodes.deep_view();
    if nodes.len() == 0 {
        proof {
            assert(dv.len() == 0);
        }
        return 0;
    }
    let mut mx: u32 = 0;
    let mut i: usize = 0;
    proof {
        assert(dv.take(0) =~= Seq::<NodeView>::empty());
    }
    while i < nodes.len()
        invariant
            i <= nodes@.len(),
            dv == nodes.deep_view(),
            dv.len() == nodes@.len(),
            node_ids_bounded(dv),
            mx < u32::MAX,
            mx == max_node_id(dv.take(i as int)),
        decreases nodes@.len() - i,
    {
        proof {
            assert(dv.take(i + 1).drop_last() =~= dv.take(i as int));
            assert(dv.take(i + 1).last() == dv[i as int]);
        }
        if nodes[i].id.0 >= mx {
            mx = nodes[i].id.0;
        }
        i = i + 1;
    }
    proof {
        assert(dv.take(dv.len() as int) =~= dv);
    }
    mx + 1
}

/// Recomputes the tag counter from loaded records.
fn compute_tag_counter(tags: &Vec<TagRecord>) -> (r: u32)
    requires
        tag_ids_bounded(tags.deep_view()),
    ensures
        r == counter_for_tags(tags.deep_view()),
{
    let ghost dv = tags.deep_view();
    if tags.len() == 0 {
        proof {
            assert(dv.len() == 0);
        }
        return 0;
    }
    let mut mx: u32 = 0;
    let mut i: usize = 0;
    proof {
        assert(dv.take(0) =~= Seq::<TagView>::empty());
    }
    while i < tags.len()
        invariant
            i <= tags@.len(),
            dv == tags.deep_view(),
            dv.len() == tags@.len(),
            tag_ids_bounded(dv),
            mx < u32::MAX,
            mx == max_tag_id(dv.take(i as int)),
        decreases tags@.len() - i,
    {
        proof {
            assert(dv.take(i + 1).drop_last() =~= dv.take(i as int));
            assert(dv.take(i + 1).last() == dv[i as int]);
        }
        if tags[i].id.0 >= mx {
            mx = tags[i].id.0;
        }
        i = i + 1;
    }
    proof {
        assert(dv.take(dv.len() as int) =~= dv);
    }
    mx + 1
}

/// Checks that ids are pairwise distinct and below the counter ceiling.
fn node_ids_ok(nodes: &Vec<NodeRecord>) -> (r: bool)
    ensures
        r == (unique_node_ids(nodes.deep_view()) && node_ids_bounded(nodes.deep_view())),
{
    let ghost dv = nodes.deep_view();
    let mut i: usize = 0;
    while i < nodes.len()
        invariant
            i <= nodes@.len(),
            dv == nodes.deep_view(),
            dv.len() == nodes@.len(),
            forall|a: int, b: int| 0 <= a < b < i ==> dv[a].id != dv[b].id,
            forall|a: int| 0 <= a < i ==> (#[trigger] dv[a]).id < u32::MAX,
        decreases nodes@.len() - i,
    {
        if nodes[i].id.0 == u32::MAX {
            assert(dv[i as int].id == u32::MAX);
            return false;
        }
        let mut j: usize = 0;
        while j < i
            invariant
                j <= i < nodes@.len(),
                dv == nodes.deep_view(),
                dv.len() == nodes@.len(),
                forall|a: int| 0 <= a < j ==> dv[a].id != dv[i as int].id,
            decreases i - j,
        {
            if nodes[j].id.0 == nodes[i].id.0 {
                assert(dv[j as int].id == dv[i as int].id);
                return false;
            }
            j = j + 1;
        }
        i = i + 1;
    }
    true
}

/// Checks that ids are pairwise distinct and below the counter ceiling.
fn tag_ids_ok(tags: &Vec<TagRecord>) -> (r: bool)
    ensures
        r == (unique_tag_ids(tags.deep_view()) && tag_ids_bounded(tags.deep_view())),
{
    let ghost dv = tags.deep_view();
    let mut i: usize = 0;
    while i < tags.len()
        invariant
            i <= tags@.len(),
            dv == tags.deep_view(),
            dv.len() == tags@.len(),
            forall|a: int, b: int| 0 <= a < b < i ==> dv[a].id != dv[b].id,
            forall|a: int| 0 <= a < i ==> (#[trigger] dv[a]).id < u32::MAX,
        decreases tags@.len() - i,
    {
        if tags[i].id.0 == u32::MAX {
            assert(dv[i as int].id == u32::MAX);
            return false;
        }
        let mut j: usize = 0;
        while j < i
            invariant
                j <= i < tags@.len(),
                dv == tags.deep_view(),
                dv.len() == tags@.len(),
                forall|a: int| 0 <= a < j ==> dv[a].id != dv[i as int].id,
            decreases i - j,
        {
            if tags[j].id.0 == tags[i].id.0 {
                assert(dv[j as int].id == dv[i as int].id);
                return false;
            }
            j = j + 1;
        }
        i = i + 1;
    }
    true
}

/// Finds the position of the record carrying `id`, scanning in map order.
fn node_find(nodes: &Vec<NodeRecord>, id: u32) -> (r: Option<usize>)
    ensures
        match r {
            Some(i) => i < nodes@.len() && nodes.deep_view()[i as int].id == id,
            None => forall|k: int|
                0 <= k < nodes@.len() ==> (#[trigger] nodes.deep_view()[k]).id != id,
        },
{
    let mut i: usize = 0;
    while i < nodes.len()
        invariant
            i <= nodes@.len(),
            nodes@.len() == nodes.deep_view().len(),
            forall|k: int| 0 <= k < i ==> (#[trigger] nodes.deep_view()[k]).id != id,
        decreases nodes@.len() - i,
    {
        if nodes[i].id.0 == id {
            return Some(i);
        }
        i = i + 1;
    }
    None
}

/// True when the explicit tag list carries the id.
fn tags_contain(tags: &Vec<TagId>, x: u32) -> (r: bool)
    ensures
        r == tag_ids(tags@).contains(x),
{
    let mut i: usize = 0;
    while i < tags.len()
        invariant
            i <= tags@.len(),
            forall|k: int| 0 <= k < i ==> tag_ids(tags@)[k] != x,
        decreases tags@.len() - i,
    {
        if tags[i].0 == x {
            assert(tag_ids(tags@)[i as int] == x);
            return true;
        }
        i = i + 1;
    }
    assert(forall|k: int| 0 <= k < tags@.len() ==> tag_ids(tags@)[k] != x);
    false
}

/// The explicit tag list with every occurrence of one id removed.
fn tags_without(tags: &Vec<TagId>, x: u32) -> (r: Vec<TagId>)
    ensures
        tag_ids(r@) == remove_id(tag_ids(tags@), x),
{
    let ghost full = tag_ids(tags@);
    let mut out: Vec<TagId> = Vec::new();
    let mut i: usize = 0;
    proof {
        assert(tag_ids(out@) =~= remove_id(full.take(0), x));
        assert(full.take(0) =~= Seq::<u32>::empty());
    }
    while i < tags.len()
        invariant
            i <= tags@.len(),
            full == tag_ids(tags@),
            full.len() == tags@.len(),
            tag_ids(out@) == remove_id(full.take(i as int), x),
        decreases tags@.len() - i,
    {
        proof {
            assert(full.take(i + 1).drop_last() =~= full.take(i as int));
            assert(full.take(i + 1).last() == full[i as int]);
            assert(full[i as int] == tags@[i as int].0);
        }
        if tags[i].0 != x {
            let ghost prev = out@;
            out.push(tags[i]);
            proof {
                assert(tag_ids(out@) =~= tag_ids(prev).push(full[i as int]));
            }
        }
        i = i + 1;
    }
    proof {
        assert(full.take(tags@.len() as int) =~= full);
    }
    out
}

/// Finds the position of the record carrying `id`, scanning in map order.
fn tag_find(tags: &Vec<TagRecord>, id: u32) -> (r: Option<usize>)
    ensures
        match r {
            Some(i) => i < tags@.len() && tags.deep_view()[i as int].id == id,
            None => forall|k: int|
                0 <= k < tags@.len() ==> (#[trigger] tags.deep_view()[k]).id != id,
        },
{
    let mut i: usize = 0;
    while i < tags.len()
        invariant
            i <= tags@.len(),
            tags@.len() == tags.deep_view().len(),
            forall|k: int| 0 <= k < i ==> (#[trigger] tags.deep_view()[k]).id != id,
        decreases tags@.len() - i,
    {
        if tags[i].id.0 == id {
            return Some(i);
        }
        i = i + 1;
    }
    None
}

/// Joins path segments with `/`, exactly as the path index keys are formed.
pub fn join_segments(path: &Vec<String>) -> (r: String)
    ensures
        r@ == join_path(path.deep_view()),
{
    let mut out = String::new();
    let mut i: usize = 0;
    proof {
        assert(path.deep_view().take(0) =~= Seq::<Seq<char>>::empty());
    }
    while i < path.len()
        invariant
            i <= path@.len(),
            path@.len() == path.deep_view().len(),
            out@ == join_path(path.deep_view().take(i as int)),
        decreases path@.len() - i,
    {
        if i > 0 {
            out.append("/");
        }
        out.append(path[i].as_str());
        proof {
            reveal_strlit("/");
            let dv = path.deep_view();
            assert(dv.take(i + 1).drop_last() =~= dv.take(i as int));
            assert(dv.take(i + 1).last() == dv[i as int]);
            if i == 0 {
                assert(out@ =~= dv[0]);
            } else {
                assert("/"@ =~= seq!['/']);
                assert(out@ =~= join_path(dv.take(i as int)) + seq!['/'] + dv[i as int]);
            }
        }
        i = i + 1;
    }
    proof {
        assert(path.deep_view().take(path@.len() as int) =~= path.deep_view());
    }
    out
}

/// True when `cand` is exactly `child` with its last segment removed.
fn is_parent_path(cand: &Vec<String>, child: &Vec<String>) -> (r: bool)
    requires
        child@.len() >= 1,
    ensures
        r == (cand.deep_view() == child.deep_view().drop_last()),
{
    if cand.len() != child.len() - 1 {
        assert(cand.deep_view().len() != child.deep_view().drop_last().len());
        return false;
    }
    let mut j: usize = 0;
    while j < cand.len()
        invariant
            j <= cand@.len(),
            cand@.len() == child@.len() - 1,
            cand@.len() == cand.deep_view().len(),
            child@.len() == child.deep_view().len(),
            forall|k: int| 0 <= k < j ==> cand.deep_view()[k] == child.deep_view()[k],
        decreases cand@.len() - j,
    {
        if !(cand[j] == child[j]) {
            assert(cand.deep_view()[j as int] != child.deep_view().drop_last()[j as int]);
            return false;
        }
        j = j + 1;
    }
    assert(cand.deep_view() =~= child.deep_view().drop_last());
    true
}

/// Finds the derived parent of `child` by scanning for the first live tag
/// whose path is `child`'s path minus its last segment.
fn find_parent(tags: &Vec<TagRecord>, child: &TagRecord) -> (r: Option<u32>)
    ensures
        r == parent_of(tags.deep_view(), child@),
{
    if child.path.len() <= 1 {
        return None;
    }
    let ghost full = tags.deep_view();
    let ghost target = child@.path.drop_last();
    let mut j: usize = 0;
    proof {
        assert(full.skip(0) =~= full);
    }
    while j < tags.len()
        invariant
            j <= tags@.len(),
            full == tags.deep_view(),
            target == child@.path.drop_last(),
            child@.path.len() >= 2,
            tags@.len() == full.len(),
            first_live_with_path(full, target) == first_live_with_path(
                full.skip(j as int),
                target,
            ),
        decreases tags@.len() - j,
    {
        let cand = &tags[j];
        proof {
            assert(full.skip(j as int).drop_first() =~= full.skip(j + 1));
            assert(full.skip(j as int)[0] == full[j as int]);
        }
        if !cand.deleted && is_parent_path(&cand.path, &child.path) {
            return Some(cand.id.0);
        }
        j = j + 1;
    }
    proof {
        assert(full.skip(tags@.len() as int) =~= Seq::<TagView>::empty());
    }
    None
}

// ---------------------------------------------------------------------
// The facade itself.
// ---------------------------------------------------------------------

/// Owns the canonical maps, the derived indexes, and the id counters.
#[derive(Debug)]
pub struct Repository {
    nodes: Vec<NodeRecord>,
    tags: Vec<TagRecord>,
    tag_paths: TagPathIndex,
    tag_hierarchy: TagHierarchyIndex,
    tag_membership: TagMembershipIndex,
    next_node_id: NodeId,
    next_tag_id: TagId,
}

impl Repository {
    /// The canonical node records, in map order.
    pub closed spec fn nodes_seq(&self) -> Seq<NodeView> {
        self.nodes.deep_view()
    }

    /// The canonical tag records, in map order.
    pub closed spec fn tags_seq(&self) -> Seq<TagView> {
        self.tags.deep_view()
    }

    /// The canonical node map.
    pub open spec fn nodes_map(&self) -> Map<u32, NodeView> {
        node_map(self.nodes_seq())
    }

    /// The canonical tag map.
    pub open spec fn tags_map(&self) -> Map<u32, TagView> {
        tag_map(self.tags_seq())
    }

    /// The node id counter.
    pub closed spec fn next_node(&self) -> u32 {
        self.next_node_id.0
    }

    /// The tag id counter.
    pub closed spec fn next_tag(&self) -> u32 {
        self.next_tag_id.0
    }

    /// The path index as a map.
    pub closed spec fn path_view(&self) -> Map<Seq<char>, u32> {
        skv_map(self.tag_paths.by_path@)
    }

    /// The hierarchy's parent map.
    pub closed spec fn parent_view(&self) -> Map<u32, Option<u32>> {
        kv_map(self.tag_hierarchy.parent@)
    }

    /// The hierarchy's children map, as plain id sequences.
    pub closed spec fn children_view(&self) -> Map<u32, Seq<u32>> {
        child_seqs_of(kv_map(self.tag_hierarchy.children@))
    }

    /// The direct-membership index, as plain sets.
    pub closed spec fn direct_view(&self) -> Map<u32, Set<u32>> {
        sets_of(kv_map(self.tag_membership.direct_nodes@))
    }

    /// The subtree-membership index, as plain sets.
    pub closed spec fn subtree_view(&self) -> Map<u32, Set<u32>> {
        sets_of(kv_map(self.tag_membership.subtree_nodes@))
    }

    /// The derived indexes are exactly the image of canonical state.
    pub open spec fn indexes_ok(&self) -> bool {
        &&& self.path_view() == path_index_of(self.tags_seq())
        &&& self.parent_view() == parent_index_of(self.tags_seq())
        &&& self.children_view() == children_index_of(self.tags_seq())
        &&& self.direct_view() == direct_index_of(self.nodes_seq(), self.tags_seq())
        &&& self.subtree_view() == subtree_index_of(self.nodes_seq(), self.tags_seq())
    }

    /// Well-formedness: ids are unique and below the counter ceiling, and
    /// every derived index is current.
    pub open spec fn wf(&self) -> bool {
        &&& unique_node_ids(self.nodes_seq())
        &&& unique_tag_ids(self.tags_seq())
        &&& node_ids_bounded(self.nodes_seq())
        &&& tag_ids_bounded(self.tags_seq())
        &&& self.indexes_ok()
    }

    /// Creates an empty repository with both counters at zero.
    pub fn new() -> (r: Repository)
        ensures
            r.wf(),
            r.nodes_seq() == Seq::<NodeView>::empty(),
            r.tags_seq() == Seq::<TagView>::empty(),
            r.next_node() == 0,
            r.next_tag() == 0,
    {
        let r = Repository {
            nodes: Vec::new(),
            tags: Vec::new(),
            tag_paths: TagPathIndex { by_path: Vec::new() },
            tag_hierarchy: TagHierarchyIndex { parent: Vec::new(), children: Vec::new() },
            tag_membership: TagMembershipIndex {
                direct_nodes: Vec::new(),
                subtree_nodes: Vec::new(),
            },
            next_node_id: NodeId(0),
            next_tag_id: TagId(0),
        };
        proof {
            assert(r.nodes_seq() =~= Seq::<NodeView>::empty());
            assert(r.tags_seq() =~= Seq::<TagView>::empty());
            assert(r.path_view() =~= path_index_of(r.tags_seq()));
            assert(r.parent_view() =~= parent_index_of(r.tags_seq()));
            assert(r.children_view() =~= children_index_of(r.tags_seq()));
            assert(r.direct_view() =~= direct_index_of(r.nodes_seq(), r.tags_seq()));
            assert(r.subtree_view() =~= subtree_index_of(r.nodes_seq(), r.tags_seq()));
        }
        r
    }

    /// Rebuilds the path index from the live tags.
    pub fn rebuild_tag_path_index(&mut self)
        ensures
            final(self).path_view() == path_index_of(old(self).tags_seq()),
            final(self).nodes_seq() == old(self).nodes_seq(),
            final(self).tags_seq() == old(self).tags_seq(),
            final(self).parent_view() == old(self).parent_view(),
            final(self).children_view() == old(self).children_view(),
            final(self).direct_view() == old(self).direct_view(),
            final(self).subtree_view() == old(self).subtree_view(),
            final(self).next_node() == old(self).next_node(),
            final(self).next_tag() == old(self).next_tag(),
    {
        let ghost tags_v = self.tags.deep_view();
        let mut entries: Vec<(String, u32)> = Vec::new();
        let mut i: usize = 0;
        proof {
            assert(tags_v.take(0) =~= Seq::<TagView>::empty());
        }
        while i < self.tags.len()
            invariant
                i <= self.tags@.len(),
                tags_v == self.tags.deep_view(),
                self.tags@.len() == tags_v.len(),
                skv_map(entries@) == path_index_of(tags_v.take(i as int)),
            decreases self.tags@.len() - i,
        {
            let t = &self.tags[i];
            proof {
                assert(tags_v.take(i + 1).drop_last() =~= tags_v.take(i as int));
                assert(tags_v.take(i + 1).last() == tags_v[i as int]);
            }
            if !t.deleted {
                let path_str = join_segments(&t.path);
                let ghost prev = entries@;
                entries.push((path_str, t.id.0));
                proof {
                    assert(entries@.drop_last() =~= prev);
                }
            }
            i = i + 1;
        }
        proof {
            assert(tags_v.take(self.tags@.len() as int) =~= tags_v);
        }
        self.tag_paths = TagPathIndex { by_path: entries };
    }

    /// Rebuilds the hierarchy (parent and children maps) from the live
    /// tags' paths.
    pub fn rebuild_tag_hierarchy_from_paths(&mut self)
        ensures
            final(self).parent_view() == parent_index_of(old(self).tags_seq()),
            final(self).children_view() == children_index_of(old(self).tags_seq()),
            final(self).nodes_seq() == old(self).nodes_seq(),
            final(self).tags_seq() == old(self).tags_seq(),
            final(self).path_view() == old(self).path_view(),
            final(self).direct_view() == old(self).direct_view(),
            final(self).subtree_view() == old(self).subtree_view(),
            final(self).next_node() == old(self).next_node(),
            final(self).next_tag() == old(self).next_tag(),
    {
        let ghost tags_v = self.tags.deep_view();
        let mut parent_entries: Vec<(u32, Option<u32>)> = Vec::new();
        let mut children_entries: Vec<(u32, Vec<TagId>)> = Vec::new();
        let mut i: usize = 0;
        proof {
            assert(tags_v.take(0) =~= Seq::<TagView>::empty());
        }
        while i < self.tags.len()
            invariant
                i <= self.tags@.len(),
                tags_v == self.tags.deep_view(),
                self.tags@.len() == tags_v.len(),
                kv_map(parent_entries@) == parent_fold(tags_v, tags_v.take(i as int)),
                child_seqs_of(kv_map(children_entries@)) == children_fold(
                    tags_v,
                    tags_v.take(i as int),
                ),
            decreases self.tags@.len() - i,
        {
            let t = &self.tags[i];
            proof {
                assert(tags_v.take(i + 1).drop_last() =~= tags_v.take(i as int));
                assert(tags_v.take(i + 1).last() == tags_v[i as int]);
            }
            if !t.deleted {
                let parent_id = find_parent(&self.tags, t);
                let ghost prev_parents = parent_entries@;
                parent_entries.push((t.id.0, parent_id));
                proof {
                    assert(parent_entries@.drop_last() =~= prev_parents);
                }
                if let Some(p) = parent_id {
                    let mut list: Vec<TagId> = match kv_get(&children_entries, p) {
                        Some(existing) => vstd::slice::slice_to_vec(existing.as_slice()),
                        None => Vec::new(),
                    };
                    let ghost prev_list = list@;
                    list.push(TagId(t.id.0));
                    let ghost prev_children = children_entries@;
                    children_entries.push((p, list));
                    proof {
                        let want = children_fold(tags_v, tags_v.take(i + 1));
                        let before = children_fold(tags_v, tags_v.take(i as int));
                        assert(children_entries@.drop_last() =~= prev_children);
                        assert(tag_ids(prev_list.push(TagId(tags_v[i as int].id))) =~=
                            tag_ids(prev_list).push(tags_v[i as int].id));
                        assert(tag_ids(prev_list) =~= seq_get_or_empty(before, p));
                        assert(child_seqs_of(kv_map(children_entries@)) =~= want);
                    }
                } else {
                    proof {
                        assert(child_seqs_of(kv_map(children_entries@)) =~= children_fold(
                            tags_v,
                            tags_v.take(i + 1),
                        ));
                    }
                }
            }
            i = i + 1;
        }
        proof {
            assert(tags_v.take(self.tags@.len() as int) =~= tags_v);
        }
        self.tag_hierarchy = TagHierarchyIndex { parent: parent_entries, children: children_entries };
    }

    /// Rebuilds both membership bitmaps: for every live node and every tag
    /// in its explicit list, the tag collects the node directly, and each
    /// strict ancestor along the hierarchy's parent chain collects it in its
    /// subtree set. The hierarchy must be current; its depth-decreasing
    /// parent edges bound the walks.
    pub fn rebuild_tag_membership_indexes(&mut self)
        requires
            unique_tag_ids(old(self).tags_seq()),
            old(self).parent_view() == parent_index_of(old(self).tags_seq()),
        ensures
            final(self).direct_view() == direct_index_of(
                old(self).nodes_seq(),
                old(self).tags_seq(),
            ),
            final(self).subtree_view() == subtree_index_of(
                old(self).nodes_seq(),
                old(self).tags_seq(),
            ),
            final(self).nodes_seq() == old(self).nodes_seq(),
            final(self).tags_seq() == old(self).tags_seq(),
            final(self).path_view() == old(self).path_view(),
            final(self).parent_view() == old(self).parent_view(),
            final(self).children_view() == old(self).children_view(),
            final(self).next_node() == old(self).next_node(),
            final(self).next_tag() == old(self).next_tag(),
    {
        let ghost tags_v = self.tags.deep_view();
        let ghost nodes_v = self.nodes.deep_view();
        let ghost pm = parent_index_of(tags_v);
        let mut direct_entries: Vec<(u32, roaring::RoaringBitmap)> = Vec::new();
        let mut subtree_entries: Vec<(u32, roaring::RoaringBitmap)> = Vec::new();
        let mut i: usize = 0;
        proof {
            assert(sets_of(kv_map(direct_entries@)) =~= member_fold(pm, tags_v, nodes_v, 0).0);
            assert(sets_of(kv_map(subtree_entries@)) =~= member_fold(pm, tags_v, nodes_v, 0).1);
        }
        while i < self.nodes.len()
            invariant
                i <= self.nodes@.len(),
                nodes_v == self.nodes.deep_view(),
                tags_v == self.tags.deep_view(),
                self.nodes@.len() == nodes_v.len(),
                unique_tag_ids(tags_v),
                kv_map(self.tag_hierarchy.parent@) == pm,
                pm == parent_index_of(tags_v),
                sets_of(kv_map(direct_entries@)) == member_fold(pm, tags_v, nodes_v, i as nat).0,
                sets_of(kv_map(subtree_entries@)) == member_fold(pm, tags_v, nodes_v, i as nat).1,
            decreases self.nodes@.len() - i,
        {
            let deleted = self.nodes[i].deleted;
            if !deleted {
                let nid = self.nodes[i].id.0;
                let node_tags: Vec<TagId> = vstd::slice::slice_to_vec(
                    self.nodes[i].tags.as_slice(),
                );
                let ghost base = member_fold(pm, tags_v, nodes_v, i as nat);
                let mut j: usize = 0;
                while j < node_tags.len()
                    invariant
                        j <= node_tags@.len(),
                        i < nodes_v.len(),
                        nodes_v == self.nodes.deep_view(),
                        tags_v == self.tags.deep_view(),
                        unique_tag_ids(tags_v),
                        kv_map(self.tag_hierarchy.parent@) == pm,
                        pm == parent_index_of(tags_v),
                        base == member_fold(pm, tags_v, nodes_v, i as nat),
                        tag_ids(node_tags@) == nodes_v[i as int].tags,
                        nid == nodes_v[i as int].id,
                        node_tags@.len() == nodes_v[i as int].tags.len(),
                        sets_of(kv_map(direct_entries@)) == member_node(
                            base.0,
                            base.1,
                            pm,
                            tags_v,
                            nodes_v[i as int],
                            j as nat,
                        ).0,
                        sets_of(kv_map(subtree_entries@)) == member_node(
                            base.0,
                            base.1,
                            pm,
                            tags_v,
                            nodes_v[i as int],
                            j as nat,
                        ).1,
                    decreases node_tags@.len() - j,
                {
                    let t = node_tags[j].0;
                    proof {
                        assert(nodes_v[i as int].tags[j as int] == node_tags@[j as int].0);
                    }
                    // the tag itself collects the node directly
                    let looked = match kv_get(&direct_entries, t) {
                        Some(existing) => bitmap_clone(existing),
                        None => bitmap_new(),
                    };
                    let mut bm = looked;
                    bitmap_insert(&mut bm, nid);
                    let ghost prev_direct = direct_entries@;
                    let ghost d_sets = sets_of(kv_map(prev_direct));
                    direct_entries.push((t, bm));
                    proof {
                        assert(direct_entries@.drop_last() =~= prev_direct);
                        assert(sets_of(kv_map(direct_entries@)) =~= set_add(d_sets, t, nid));
                    }
                    // then every strict ancestor collects it in its subtree set
                    let ghost s_before = sets_of(kv_map(subtree_entries@));
                    let ghost walk_target = add_ancestors(
                        s_before,
                        pm,
                        t,
                        nid,
                        fuel_of(tags_v, t),
                    );
                    let mut current: u32 = t;
                    loop
                        invariant
                            nodes_v == self.nodes.deep_view(),
                            tags_v == self.tags.deep_view(),
                            unique_tag_ids(tags_v),
                            kv_map(self.tag_hierarchy.parent@) == pm,
                            pm == parent_index_of(tags_v),
                            add_ancestors(
                                sets_of(kv_map(subtree_entries@)),
                                pm,
                                current,
                                nid,
                                fuel_of(tags_v, current),
                            ) == walk_target,
                        ensures
                            sets_of(kv_map(subtree_entries@)) == walk_target,
                            nodes_v == self.nodes.deep_view(),
                            tags_v == self.tags.deep_view(),
                            kv_map(self.tag_hierarchy.parent@) == pm,
                        decreases fuel_of(tags_v, current),
                    {
                        let step: Option<u32> = match kv_get(
                            &self.tag_hierarchy.parent,
                            current,
                        ) {
                            Some(popt) => match popt {
                                Some(p) => Some(*p),
                                None => None,
                            },
                            None => None,
                        };
                        proof {
                            lemma_add_ancestors_unfold(
                                sets_of(kv_map(subtree_entries@)),
                                tags_v,
                                current,
                                nid,
                            );
                        }
                        match step {
                            Some(p) => {
                                proof {
                                    lemma_parent_step(tags_v, current, p);
                                }
                                let looked_sub = match kv_get(&subtree_entries, p) {
                                    Some(existing) => bitmap_clone(existing),
                                    None => bitmap_new(),
                                };
                                let mut bm2 = looked_sub;
                                bitmap_insert(&mut bm2, nid);
                                let ghost prev_sub = subtree_entries@;
                                let ghost s_sets = sets_of(kv_map(prev_sub));
                                subtree_entries.push((p, bm2));
                                proof {
                                    assert(subtree_entries@.drop_last() =~= prev_sub);
                                    assert(sets_of(kv_map(subtree_entries@)) =~= set_add(
                                        s_sets,
                                        p,
                                        nid,
                                    ));
                                }
                                current = p;
                            },
                            None => {
                                break;
                            },
                        }
                    }
                    proof {
                        assert(member_node(
                            base.0,
                            base.1,
                            pm,
                            tags_v,
                            nodes_v[i as int],
                            (j + 1) as nat,
                        ).0 == set_add(d_sets, t, nid));
                        assert(member_node(
                            base.0,
                            base.1,
                            pm,
                            tags_v,
                            nodes_v[i as int],
                            (j + 1) as nat,
                        ).1 == walk_target);
                    }
                    j = j + 1;
                }
                proof {
                    assert(member_fold(pm, tags_v, nodes_v, (i + 1) as nat) == member_node(
                        base.0,
                        base.1,
                        pm,
                        tags_v,
                        nodes_v[i as int],
                        nodes_v[i as int].tags.len() as nat,
                    ));
                }
            } else {
                proof {
                    assert(member_fold(pm, tags_v, nodes_v, (i + 1) as nat) == member_fold(
                        pm,
                        tags_v,
                        nodes_v,
                        i as nat,
                    ));
                }
            }
            i = i + 1;
        }
        proof {
            assert(nodes_v.len() == self.nodes@.len());
        }
        self.tag_membership = TagMembershipIndex {
            direct_nodes: direct_entries,
            subtree_nodes: subtree_entries,
        };
    }

    /// Serializes only the two canonical maps as the canonical text
    /// document: indexes and counters are never persisted.
    pub fn save_to_json(&self) -> (r: Result<String, RepoError>)
        ensures
            r is Ok,
            (r->Ok_0)@ == crate::persist::render_doc(self.nodes_seq(), self.tags_seq()),
    {
        Ok(crate::persist::render_document(&self.nodes, &self.tags))
    }

    /// Deserializes the canonical maps, recomputes each counter as one past
    /// the largest existing id (zero when the map is empty), and rebuilds
    /// every index before handing the repository out. A document that does
    /// not decode, repeats an id, or carries an id leaving no room for the
    /// counter is rejected as a serialization failure.
    pub fn load_from_json(json: &str) -> (r: Result<Repository, RepoError>)
        ensures
            match r {
                Ok(repo) => {
                    &&& crate::persist::pdoc(json@) is Some
                    &&& repo.nodes_seq() == (crate::persist::pdoc(json@)->0).0
                    &&& repo.tags_seq() == (crate::persist::pdoc(json@)->0).1
                    &&& repo.wf()
                    &&& repo.next_node() == counter_for_nodes(repo.nodes_seq())
                    &&& repo.next_tag() == counter_for_tags(repo.tags_seq())
                },
                Err(e) => {
                    &&& e is Serialization
                    &&& (crate::persist::pdoc(json@) is None || !unique_node_ids(
                        (crate::persist::pdoc(json@)->0).0,
                    ) || !unique_tag_ids((crate::persist::pdoc(json@)->0).1) || !node_ids_bounded(
                        (crate::persist::pdoc(json@)->0).0,
                    ) || !tag_ids_bounded((crate::persist::pdoc(json@)->0).1))
                },
            },
    {
        let chars = crate::persist::string_to_chars(json);
        let (nodes, tags) = match crate::persist::parse_document(&chars) {
            Some(x) => x,
            None => {
                return Err(RepoError::Serialization);
            },
        };
        if !node_ids_ok(&nodes) || !tag_ids_ok(&tags) {
            return Err(RepoError::Serialization);
        }
        let next_node_id = NodeId(compute_node_counter(&nodes));
        let next_tag_id = TagId(compute_tag_counter(&tags));
        let mut repo = Repository {
            nodes,
            tags,
            tag_paths: TagPathIndex { by_path: Vec::new() },
            tag_hierarchy: TagHierarchyIndex { parent: Vec::new(), children: Vec::new() },
            tag_membership: TagMembershipIndex {
                direct_nodes: Vec::new(),
                subtree_nodes: Vec::new(),
            },
            next_node_id,
            next_tag_id,
        };
        repo.rebuild_all_indexes();
        Ok(repo)
    }

    /// Inserts or replaces a node record by id. If the record's id equals
    /// the node counter, the counter advances past it. All derived indexes
    /// are rebuilt before returning.
    pub fn upsert_node(&mut self, node: NodeRecord) -> (r: Result<NodeId, RepoError>)
        requires
            old(self).wf(),
            node.id.0 < u32::MAX,
        ensures
            final(self).wf(),
            r == Ok::<NodeId, RepoError>(node.id),
            final(self).nodes_map() == old(self).nodes_map().insert(node@.id, node@),
            final(self).tags_seq() == old(self).tags_seq(),
            old(self).nodes_map().contains_key(node@.id) ==> exists|i: int|
                0 <= i < old(self).nodes_seq().len() && (#[trigger] old(self).nodes_seq()[i]).id
                    == node@.id && final(self).nodes_seq() == old(self).nodes_seq().update(
                    i,
                    node@,
                ),
            !old(self).nodes_map().contains_key(node@.id) ==> final(self).nodes_seq() == old(
                self,
            ).nodes_seq().push(node@),
            final(self).next_node() == if node@.id == old(self).next_node() {
                node@.id + 1
            } else {
                old(self).next_node() as int
            },
            final(self).next_tag() == old(self).next_tag(),
    {
        let node_id = node.id;
        let ghost nv = node@;
        let ghost old_seq = self.nodes.deep_view();
        proof {
            lemma_node_map_char(old_seq);
        }
        match node_find(&self.nodes, node_id.0) {
            Some(i) => {
                proof {
                    lemma_node_map_update(old_seq, i as int, nv);
                }
                self.nodes.set(i, node);
                proof {
                    assert(self.nodes.deep_view() =~= old_seq.update(i as int, nv));
                    assert(old_seq[i as int].id == nv.id);
                }
            },
            None => {
                self.nodes.push(node);
                proof {
                    assert(self.nodes.deep_view().drop_last() =~= old_seq);
                    assert(self.nodes.deep_view() =~= old_seq.push(nv));
                }
            },
        }
        if node_id.0 == self.next_node_id.0 {
            self.next_node_id = NodeId(node_id.0 + 1);
        }
        self.rebuild_all_indexes();
        Ok(node_id)
    }

    /// Tombstones a node: the record stays addressable, is excluded from
    /// iteration and index rebuilds, and its id is never reallocated. Fails
    /// with `NotFound` when the id is absent.
    pub fn delete_node(&mut self, node: NodeId) -> (r: Result<(), RepoError>)
        requires
            old(self).wf(),
        ensures
            final(self).wf(),
            !old(self).nodes_map().contains_key(node.0) ==> r is Err && r->Err_0 is NotFound
                && *final(self) == *old(self),
            old(self).nodes_map().contains_key(node.0) ==> {
                &&& r is Ok
                &&& final(self).nodes_map() == old(self).nodes_map().insert(
                    node.0,
                    NodeView { deleted: true, ..old(self).nodes_map()[node.0] },
                )
                &&& final(self).tags_seq() == old(self).tags_seq()
                &&& final(self).next_node() == old(self).next_node()
                &&& final(self).next_tag() == old(self).next_tag()
                &&& exists|i: int|
                    0 <= i < old(self).nodes_seq().len() && (#[trigger] old(
                        self,
                    ).nodes_seq()[i]).id == node.0 && final(self).nodes_seq() == old(
                        self,
                    ).nodes_seq().update(
                        i,
                        NodeView { deleted: true, ..old(self).nodes_map()[node.0] },
                    )
            },
    {
        let ghost old_seq = self.nodes.deep_view();
        proof {
            lemma_node_map_char(old_seq);
        }
        match node_find(&self.nodes, node.0) {
            Some(i) => {
                let mut rec = self.nodes[i].clone();
                rec.deleted = true;
                let ghost nv = rec@;
                proof {
                    lemma_node_map_update(old_seq, i as int, nv);
                }
                self.nodes.set(i, rec);
                proof {
                    assert(self.nodes.deep_view() =~= old_seq.update(i as int, nv));
                    assert(nv == (NodeView { deleted: true, ..node_map(old_seq)[node.0] }));
                }
                self.rebuild_all_indexes();
                Ok(())
            },
            None => Err(RepoError::NotFound(String::from_str("delete_node: node not found"))),
        }
    }

    /// Looks a node up by id; tombstoned records are returned like live
    /// ones.
    pub fn get_node(&self, node: NodeId) -> (r: Option<&NodeRecord>)
        requires
            self.wf(),
        ensures
            match r {
                Some(rec) => self.nodes_map().contains_key(node.0) && rec@ == self.nodes_map()[
                    node.0],
                None => !self.nodes_map().contains_key(node.0),
            },
    {
        proof {
            lemma_node_map_char(self.nodes.deep_view());
        }
        match node_find(&self.nodes, node.0) {
            Some(i) => Some(&self.nodes[i]),
            None => None,
        }
    }

    /// The live node records, in map order.
    pub fn iter_nodes(&self) -> (r: Vec<NodeRecord>)
        ensures
            r.deep_view() == live_nodes(self.nodes_seq()),
    {
        let ghost nodes_v = self.nodes.deep_view();
        let mut out: Vec<NodeRecord> = Vec::new();
        let mut i: usize = 0;
        proof {
            assert(out.deep_view() =~= live_nodes(nodes_v.take(0)));
            assert(nodes_v.take(0) =~= Seq::<NodeView>::empty());
        }
        while i < self.nodes.len()
            invariant
                i <= self.nodes@.len(),
                nodes_v == self.nodes.deep_view(),
                self.nodes@.len() == nodes_v.len(),
                out.deep_view() == live_nodes(nodes_v.take(i as int)),
            decreases self.nodes@.len() - i,
        {
            proof {
                assert(nodes_v.take(i + 1).drop_last() =~= nodes_v.take(i as int));
                assert(nodes_v.take(i + 1).last() == nodes_v[i as int]);
            }
            if !self.nodes[i].deleted {
                let ghost prev = out.deep_view();
                out.push(self.nodes[i].clone());
                proof {
                    assert(out.deep_view() =~= prev.push(nodes_v[i as int]));
                }
            }
            i = i + 1;
        }
        proof {
            assert(nodes_v.take(nodes_v.len() as int) =~= nodes_v);
        }
        out
    }

    /// The live tag records, in map order.
    pub fn iter_tags(&self) -> (r: Vec<TagRecord>)
        ensures
            r.deep_view() == live_tags(self.tags_seq()),
    {
        let ghost tags_v = self.tags.deep_view();
        let mut out: Vec<TagRecord> = Vec::new();
        let mut i: usize = 0;
        proof {
            assert(out.deep_view() =~= live_tags(tags_v.take(0)));
            assert(tags_v.take(0) =~= Seq::<TagView>::empty());
        }
        while i < self.tags.len()
            invariant
                i <= self.tags@.len(),
                tags_v == self.tags.deep_view(),
                self.tags@.len() == tags_v.len(),
                out.deep_view() == live_tags(tags_v.take(i as int)),
            decreases self.tags@.len() - i,
        {
            proof {
                assert(tags_v.take(i + 1).drop_last() =~= tags_v.take(i as int));
                assert(tags_v.take(i + 1).last() == tags_v[i as int]);
            }
            if !self.tags[i].deleted {
                let ghost prev = out.deep_view();
                out.push(self.tags[i].clone());
                proof {
                    assert(out.deep_view() =~= prev.push(tags_v[i as int]));
                }
            }
            i = i + 1;
        }
        proof {
            assert(tags_v.take(tags_v.len() as int) =~= tags_v);
        }
        out
    }

    /// Returns the first id at or above the node counter that no record —
    /// live or tombstoned — already carries, and moves the counter there.
    /// The id is not reserved: a repeated call before an upsert returns the
    /// same value again.
    pub fn get_next_node_id(&mut self) -> (r: NodeId)
        requires
            old(self).wf(),
        ensures
            final(self).wf(),
            r.0 == next_free(old(self).nodes_map(), old(self).next_node()),
            !old(self).nodes_map().contains_key(r.0),
            final(self).next_node() == r.0,
            final(self).nodes_seq() == old(self).nodes_seq(),
            final(self).tags_seq() == old(self).tags_seq(),
            final(self).next_tag() == old(self).next_tag(),
            final(self).path_view() == old(self).path_view(),
            final(self).parent_view() == old(self).parent_view(),
            final(self).children_view() == old(self).children_view(),
            final(self).direct_view() == old(self).direct_view(),
            final(self).subtree_view() == old(self).subtree_view(),
    {
        let ghost m = node_map(old(self).nodes.deep_view());
        proof {
            lemma_node_map_char(self.nodes.deep_view());
        }
        loop
            invariant
                self.wf(),
                node_map(self.nodes.deep_view()) == m,
                self.nodes.deep_view() == old(self).nodes.deep_view(),
                self.tags == old(self).tags,
                self.tag_paths == old(self).tag_paths,
                self.tag_hierarchy == old(self).tag_hierarchy,
                self.tag_membership == old(self).tag_membership,
                self.next_tag_id == old(self).next_tag_id,
                next_free(m, self.next_node_id.0) == next_free(m, old(self).next_node_id.0),
            ensures
                self.nodes.deep_view() == old(self).nodes.deep_view(),
                self.tags == old(self).tags,
                self.tag_paths == old(self).tag_paths,
                self.tag_hierarchy == old(self).tag_hierarchy,
                self.tag_membership == old(self).tag_membership,
                self.next_tag_id == old(self).next_tag_id,
                !m.contains_key(self.next_node_id.0),
                self.next_node_id.0 == next_free(m, old(self).next_node_id.0),
            decreases u32::MAX - self.next_node_id.0,
        {
            let found = node_find(&self.nodes, self.next_node_id.0);
            match found {
                None => {
                    proof {
                        if m.contains_key(self.next_node_id.0) {
                            lemma_node_map_char(self.nodes.deep_view());
                            let k = choose|k: int|
                                0 <= k < self.nodes.deep_view().len() && (#[trigger] self
                                    .nodes
                                    .deep_view()[k]).id == self.next_node_id.0;
                        }
                    }
                    break;
                },
                Some(i) => {
                    proof {
                        lemma_node_map_char(self.nodes.deep_view());
                        assert(m.contains_key(self.next_node_id.0));
                    }
                    self.next_node_id = NodeId(self.next_node_id.0 + 1);
                },
            }
        }
        self.next_node_id
    }

    /// Inserts or replaces a tag record by id, advancing the tag counter
    /// past it when they collide, then rebuilds all indexes.
    pub fn upsert_tag(&mut self, tag: TagRecord) -> (r: Result<TagId, RepoError>)
        requires
            old(self).wf(),
            tag.id.0 < u32::MAX,
        ensures
            final(self).wf(),
            r == Ok::<TagId, RepoError>(tag.id),
            final(self).tags_map() == old(self).tags_map().insert(tag@.id, tag@),
            final(self).nodes_seq() == old(self).nodes_seq(),
            old(self).tags_map().contains_key(tag@.id) ==> exists|i: int|
                0 <= i < old(self).tags_seq().len() && (#[trigger] old(self).tags_seq()[i]).id
                    == tag@.id && final(self).tags_seq() == old(self).tags_seq().update(i, tag@),
            !old(self).tags_map().contains_key(tag@.id) ==> final(self).tags_seq() == old(
                self,
            ).tags_seq().push(tag@),
            final(self).next_tag() == if tag@.id == old(self).next_tag() {
                tag@.id + 1
            } else {
                old(self).next_tag() as int
            },
            final(self).next_node() == old(self).next_node(),
    {
        let tag_id = tag.id;
        let ghost tv = tag@;
        let ghost old_seq = self.tags.deep_view();
        proof {
            lemma_tag_map_char(old_seq);
        }
        match tag_find(&self.tags, tag_id.0) {
            Some(i) => {
                proof {
                    lemma_tag_map_update(old_seq, i as int, tv);
                }
                self.tags.set(i, tag);
                proof {
                    assert(self.tags.deep_view() =~= old_seq.update(i as int, tv));
                    assert(old_seq[i as int].id == tv.id);
                }
            },
            None => {
                self.tags.push(tag);
                proof {
                    assert(self.tags.deep_view().drop_last() =~= old_seq);
                    assert(self.tags.deep_view() =~= old_seq.push(tv));
                }
            },
        }
        if tag_id.0 == self.next_tag_id.0 {
            self.next_tag_id = TagId(tag_id.0 + 1);
        }
        self.rebuild_all_indexes();
        Ok(tag_id)
    }

    /// Tombstones a tag. The record stays addressable, but the tag leaves
    /// the path and hierarchy indexes entirely, which orphans its
    /// descendants rather than re-parenting them. Fails with `NotFound`
    /// when the id is absent.
    pub fn delete_tag(&mut self, tag: TagId) -> (r: Result<(), RepoError>)
        requires
            old(self).wf(),
        ensures
            final(self).wf(),
            !old(self).tags_map().contains_key(tag.0) ==> r is Err && r->Err_0 is NotFound
                && *final(self) == *old(self),
            old(self).tags_map().contains_key(tag.0) ==> {
                &&& r is Ok
                &&& final(self).tags_map() == old(self).tags_map().insert(
                    tag.0,
                    TagView { deleted: true, ..old(self).tags_map()[tag.0] },
                )
                &&& final(self).nodes_seq() == old(self).nodes_seq()
                &&& final(self).next_node() == old(self).next_node()
                &&& final(self).next_tag() == old(self).next_tag()
                &&& exists|i: int|
                    0 <= i < old(self).tags_seq().len() && (#[trigger] old(self).tags_seq()[i]).id
                        == tag.0 && final(self).tags_seq() == old(self).tags_seq().update(
                        i,
                        TagView { deleted: true, ..old(self).tags_map()[tag.0] },
                    )
            },
    {
        let ghost old_seq = self.tags.deep_view();
        proof {
            lemma_tag_map_char(old_seq);
        }
        match tag_find(&self.tags, tag.0) {
            Some(i) => {
                let mut rec = self.tags[i].clone();
                rec.deleted = true;
                let ghost tv = rec@;
                proof {
                    lemma_tag_map_update(old_seq, i as int, tv);
                }
                self.tags.set(i, rec);
                proof {
                    assert(self.tags.deep_view() =~= old_seq.update(i as int, tv));
                    assert(tv == (TagView { deleted: true, ..tag_map(old_seq)[tag.0] }));
                }
                self.rebuild_all_indexes();
                Ok(())
            },
            None => Err(RepoError::NotFound(String::from_str("delete_tag: tag not found"))),
        }
    }

    /// Looks a tag up by id, returning a copy; tombstoned records are
    /// returned like live ones.
    pub fn get_tag(&self, tag: TagId) -> (r: Option<TagRecord>)
        requires
            self.wf(),
        ensures
            match r {
                Some(rec) => self.tags_map().contains_key(tag.0) && rec@ == self.tags_map()[tag.0],
                None => !self.tags_map().contains_key(tag.0),
            },
    {
        proof {
            lemma_tag_map_char(self.tags.deep_view());
        }
        match tag_find(&self.tags, tag.0) {
            Some(i) => Some(self.tags[i].clone()),
            None => None,
        }
    }

    /// Returns the first id at or above the tag counter that no record —
    /// live or tombstoned — already carries, and moves the counter there.
    pub fn get_next_tag_id(&mut self) -> (r: TagId)
        requires
            old(self).wf(),
        ensures
            final(self).wf(),
            r.0 == next_free(old(self).tags_map(), old(self).next_tag()),
            !old(self).tags_map().contains_key(r.0),
            final(self).next_tag() == r.0,
            final(self).nodes_seq() == old(self).nodes_seq(),
            final(self).tags_seq() == old(self).tags_seq(),
            final(self).next_node() == old(self).next_node(),
            final(self).path_view() == old(self).path_view(),
            final(self).parent_view() == old(self).parent_view(),
            final(self).children_view() == old(self).children_view(),
            final(self).direct_view() == old(self).direct_view(),
            final(self).subtree_view() == old(self).subtree_view(),
    {
        let ghost m = tag_map(old(self).tags.deep_view());
        proof {
            lemma_tag_map_char(self.tags.deep_view());
        }
        loop
            invariant
                self.wf(),
                tag_map(self.tags.deep_view()) == m,
                self.tags.deep_view() == old(self).tags.deep_view(),
                self.nodes == old(self).nodes,
                self.tag_paths == old(self).tag_paths,
                self.tag_hierarchy == old(self).tag_hierarchy,
                self.tag_membership == old(self).tag_membership,
                self.next_node_id == old(self).next_node_id,
                next_free(m, self.next_tag_id.0) == next_free(m, old(self).next_tag_id.0),
            ensures
                self.tags.deep_view() == old(self).tags.deep_view(),
                self.nodes == old(self).nodes,
                self.tag_paths == old(self).tag_paths,
                self.tag_hierarchy == old(self).tag_hierarchy,
                self.tag_membership == old(self).tag_membership,
                self.next_node_id == old(self).next_node_id,
                !m.contains_key(self.next_tag_id.0),
                self.next_tag_id.0 == next_free(m, old(self).next_tag_id.0),
            decreases u32::MAX - self.next_tag_id.0,
        {
            let found = tag_find(&self.tags, self.next_tag_id.0);
            match found {
                None => {
                    proof {
                        if m.contains_key(self.next_tag_id.0) {
                            lemma_tag_map_char(self.tags.deep_view());
                            let k = choose|k: int|
                                0 <= k < self.tags.deep_view().len() && (#[trigger] self
                                    .tags
                                    .deep_view()[k]).id == self.next_tag_id.0;
                        }
                    }
                    break;
                },
                Some(i) => {
                    proof {
                        lemma_tag_map_char(self.tags.deep_view());
                        assert(m.contains_key(self.next_tag_id.0));
                    }
                    self.next_tag_id = TagId(self.next_tag_id.0 + 1);
                },
            }
        }
        self.next_tag_id
    }

    /// Resolves a tag id from a path through the path index: the segments
    /// are joined exactly as the index keys were formed.
    pub fn get_tag_by_path(&mut self, path: Vec<String>) -> (r: Result<TagId, RepoError>)
        requires
            old(self).wf(),
        ensures
            *final(self) == *old(self),
            match r {
                Ok(t) => old(self).path_view().contains_key(join_path(path.deep_view())) && t.0
                    == old(self).path_view()[join_path(path.deep_view())],
                Err(e) => e is NotFound && !old(self).path_view().contains_key(
                    join_path(path.deep_view()),
                ),
            },
    {
        let path_str = join_segments(&path);
        match skv_get(&self.tag_paths.by_path, &path_str) {
            Some(t) => Ok(TagId(t)),
            None => Err(RepoError::NotFound(String::from_str("get_tag_by_path: tag not found"))),
        }
    }

    /// The derived parent recorded for a live tag: `None` when the tag is
    /// not in the hierarchy (tombstoned or unknown), `Some(None)` for a
    /// root or orphan, `Some(Some(p))` for a tag whose parent path resolves.
    pub fn get_parent_tag(&self, tag: TagId) -> (r: Option<Option<TagId>>)
        requires
            self.wf(),
        ensures
            match r {
                Some(p) => self.parent_view().contains_key(tag.0) && self.parent_view()[tag.0]
                    == (match p {
                    Some(q) => Some(q.0),
                    None => None::<u32>,
                }),
                None => !self.parent_view().contains_key(tag.0),
            },
    {
        match kv_get(&self.tag_hierarchy.parent, tag.0) {
            Some(popt) => match popt {
                Some(p) => Some(Some(TagId(*p))),
                None => Some(None),
            },
            None => None,
        }
    }

    /// The child tags recorded for a tag, in map order, when it has any.
    pub fn get_child_tags(&self, tag: TagId) -> (r: Option<&Vec<TagId>>)
        requires
            self.wf(),
        ensures
            match r {
                Some(v) => self.children_view().contains_key(tag.0) && tag_ids(v@)
                    == self.children_view()[tag.0],
                None => !self.children_view().contains_key(tag.0),
            },
    {
        let r = kv_get(&self.tag_hierarchy.children, tag.0);
        proof {
            let cm = kv_map(self.tag_hierarchy.children@);
            match r {
                Some(v) => {
                    assert(child_seqs_of(cm).contains_key(tag.0));
                    assert(child_seqs_of(cm)[tag.0] == tag_ids(cm[tag.0]@));
                },
                None => {
                    assert(!child_seqs_of(cm).contains_key(tag.0));
                },
            }
        }
        r
    }

    /// Adds a tag to a node's explicit set, idempotently: a tag the node
    /// already carries is not added twice. Both ids must exist in the
    /// canonical maps — existence, not liveness, is what is checked. All
    /// indexes are rebuilt on success.
    pub fn tag_node(&mut self, node: NodeId, tag: TagId) -> (r: Result<(), RepoError>)
        requires
            old(self).wf(),
        ensures
            final(self).wf(),
            !old(self).nodes_map().contains_key(node.0) ==> r is Err && r->Err_0 is NotFound
                && *final(self) == *old(self),
            old(self).nodes_map().contains_key(node.0) && !old(self).tags_map().contains_key(tag.0)
                ==> r is Err && r->Err_0 is NotFound && *final(self) == *old(self),
            old(self).nodes_map().contains_key(node.0) && old(self).tags_map().contains_key(tag.0)
                ==> {
                &&& r is Ok
                &&& final(self).nodes_map() == old(self).nodes_map().insert(
                    node.0,
                    NodeView {
                        tags: if old(self).nodes_map()[node.0].tags.contains(tag.0) {
                            old(self).nodes_map()[node.0].tags
                        } else {
                            old(self).nodes_map()[node.0].tags.push(tag.0)
                        },
                        ..old(self).nodes_map()[node.0]
                    },
                )
                &&& final(self).tags_seq() == old(self).tags_seq()
                &&& final(self).next_node() == old(self).next_node()
                &&& final(self).next_tag() == old(self).next_tag()
            },
    {
        let ghost old_seq = self.nodes.deep_view();
        proof {
            lemma_node_map_char(old_seq);
            lemma_tag_map_char(self.tags.deep_view());
        }
        let i = match node_find(&self.nodes, node.0) {
            Some(i) => i,
            None => {
                return Err(RepoError::NotFound(String::from_str("tag_node: node not found")));
            },
        };
        if tag_find(&self.tags, tag.0).is_none() {
            return Err(RepoError::NotFound(String::from_str("tag_node: tag not found")));
        }
        let mut rec = self.nodes[i].clone();
        if !tags_contain(&rec.tags, tag.0) {
            rec.tags.push(TagId(tag.0));
            proof {
                assert(tag_ids(rec.tags@) =~= node_map(old_seq)[node.0].tags.push(tag.0));
            }
        }
        let ghost nv = rec@;
        proof {
            lemma_node_map_update(old_seq, i as int, nv);
            assert(nv == (NodeView {
                tags: if node_map(old_seq)[node.0].tags.contains(tag.0) {
                    node_map(old_seq)[node.0].tags
                } else {
                    node_map(old_seq)[node.0].tags.push(tag.0)
                },
                ..node_map(old_seq)[node.0]
            }));
        }
        self.nodes.set(i, rec);
        proof {
            assert(self.nodes.deep_view() =~= old_seq.update(i as int, nv));
        }
        self.rebuild_all_indexes();
        Ok(())
    }

    /// Removes a tag from a node's explicit set; removing a tag the node
    /// does not carry leaves the set as it was. Both ids must exist in the
    /// canonical maps. All indexes are rebuilt on success.
    pub fn untag_node(&mut self, node: NodeId, tag: TagId) -> (r: Result<(), RepoError>)
        requires
            old(self).wf(),
        ensures
            final(self).wf(),
            !old(self).nodes_map().contains_key(node.0) ==> r is Err && r->Err_0 is NotFound
                && *final(self) == *old(self),
            old(self).nodes_map().contains_key(node.0) && !old(self).tags_map().contains_key(tag.0)
                ==> r is Err && r->Err_0 is NotFound && *final(self) == *old(self),
            old(self).nodes_map().contains_key(node.0) && old(self).tags_map().contains_key(tag.0)
                ==> {
                &&& r is Ok
                &&& final(self).nodes_map() == old(self).nodes_map().insert(
                    node.0,
                    NodeView {
                        tags: remove_id(old(self).nodes_map()[node.0].tags, tag.0),
                        ..old(self).nodes_map()[node.0]
                    },
                )
                &&& final(self).tags_seq() == old(self).tags_seq()
                &&& final(self).next_node() == old(self).next_node()
                &&& final(self).next_tag() == old(self).next_tag()
            },
    {
        let ghost old_seq = self.nodes.deep_view();
        proof {
            lemma_node_map_char(old_seq);
            lemma_tag_map_char(self.tags.deep_view());
        }
        let i = match node_find(&self.nodes, node.0) {
            Some(i) => i,
            None => {
                return Err(RepoError::NotFound(String::from_str("untag_node: node not found")));
            },
        };
        if tag_find(&self.tags, tag.0).is_none() {
            return Err(RepoError::NotFound(String::from_str("untag_node: tag not found")));
        }
        let mut rec = self.nodes[i].clone();
        rec.tags = tags_without(&rec.tags, tag.0);
        let ghost nv = rec@;
        proof {
            lemma_node_map_update(old_seq, i as int, nv);
            assert(nv == (NodeView {
                tags: remove_id(node_map(old_seq)[node.0].tags, tag.0),
                ..node_map(old_seq)[node.0]
            }));
        }
        self.nodes.set(i, rec);
        proof {
            assert(self.nodes.deep_view() =~= old_seq.update(i as int, nv));
        }
        self.rebuild_all_indexes();
        Ok(())
    }

    /// Evaluates a query against the membership index by post-order
    /// recursion into bitmap operations.
    fn eval_query_bitmap(&self, q: &TagQuery, all_live: &roaring::RoaringBitmap) -> (r:
        roaring::RoaringBitmap)
        ensures
            bitmap_elems(r) == eval_query(
                self.direct_view(),
                self.subtree_view(),
                bitmap_elems(*all_live),
                *q,
            ),
        decreases *q,
    {
        match q {
            TagQuery::Tag(t) => {
                let d = match kv_get(&self.tag_membership.direct_nodes, t.0) {
                    Some(b) => bitmap_clone(b),
                    None => bitmap_new(),
                };
                let s = match kv_get(&self.tag_membership.subtree_nodes, t.0) {
                    Some(b) => bitmap_clone(b),
                    None => bitmap_new(),
                };
                proof {
                    assert(bitmap_elems(d) == set_get_or_empty(self.direct_view(), t.0));
                    assert(bitmap_elems(s) == set_get_or_empty(self.subtree_view(), t.0));
                }
                bitmap_union(&d, &s)
            },
            TagQuery::Or(a, b) => {
                let ra = self.eval_query_bitmap(&**a, all_live);
                let rb = self.eval_query_bitmap(&**b, all_live);
                bitmap_union(&ra, &rb)
            },
            TagQuery::And(a, b) => {
                let ra = self.eval_query_bitmap(&**a, all_live);
                let rb = self.eval_query_bitmap(&**b, all_live);
                bitmap_intersection(&ra, &rb)
            },
            TagQuery::Not(a) => {
                let ra = self.eval_query_bitmap(&**a, all_live);
                bitmap_difference(all_live, &ra)
            },
        }
    }

    /// Evaluates a boolean tag query: a tag denotes its effective set
    /// (direct and subtree members united); `And`, `Or`, and `Not` combine
    /// sets, with `Not` complementing against all live node ids.
    pub fn search_bitmap(&self, query: TagQuery) -> (r: Result<roaring::RoaringBitmap, RepoError>)
        requires
            self.wf(),
        ensures
            r is Ok,
            bitmap_elems(r->Ok_0) == eval_query(
                self.direct_view(),
                self.subtree_view(),
                live_ids(self.nodes_seq()),
                query,
            ),
    {
        let ghost nodes_v = self.nodes.deep_view();
        let mut all_live = bitmap_new();
        let mut i: usize = 0;
        proof {
            assert(nodes_v.take(0) =~= Seq::<NodeView>::empty());
            assert(bitmap_elems(all_live) =~= live_ids(nodes_v.take(0)));
        }
        while i < self.nodes.len()
            invariant
                i <= self.nodes@.len(),
                nodes_v == self.nodes.deep_view(),
                self.nodes@.len() == nodes_v.len(),
                bitmap_elems(all_live) == live_ids(nodes_v.take(i as int)),
            decreases self.nodes@.len() - i,
        {
            proof {
                assert(nodes_v.take(i + 1).drop_last() =~= nodes_v.take(i as int));
                assert(nodes_v.take(i + 1).last() == nodes_v[i as int]);
            }
            if !self.nodes[i].deleted {
                bitmap_insert(&mut all_live, self.nodes[i].id.0);
            }
            i = i + 1;
        }
        proof {
            assert(nodes_v.take(nodes_v.len() as int) =~= nodes_v);
        }
        Ok(self.eval_query_bitmap(&query, &all_live))
    }

    /// Unpacks a bitmap into node ids, in increasing order.
    pub fn node_ids_from_bitmap(&self, bm: &roaring::RoaringBitmap) -> (r: Vec<NodeId>)
        ensures
            forall|i: int, j: int| 0 <= i < j < r@.len() ==> r@[i].0 < r@[j].0,
            forall|x: u32|
                bitmap_elems(*bm).contains(x) <==> exists|i: int|
                    0 <= i < r@.len() && (#[trigger] r@[i]).0 == x,
    {
        let raw = bitmap_to_vec(bm);
        let mut out: Vec<NodeId> = Vec::new();
        let mut i: usize = 0;
        while i < raw.len()
            invariant
                i <= raw@.len(),
                out@.len() == i,
                forall|k: int| 0 <= k < i ==> (#[trigger] out@[k]).0 == raw@[k],
                forall|k: int, l: int| 0 <= k < l < raw@.len() ==> raw@[k] < raw@[l],
                forall|x: u32| raw@.contains(x) <==> bitmap_elems(*bm).contains(x),
            decreases raw@.len() - i,
        {
            out.push(NodeId(raw[i]));
            i = i + 1;
        }
        proof {
            assert forall|x: u32| bitmap_elems(*bm).contains(x) implies exists|k: int|
                0 <= k < out@.len() && (#[trigger] out@[k]).0 == x by {
                assert(raw@.contains(x));
                let k = choose|k: int| 0 <= k < raw@.len() && raw@[k] == x;
                assert(out@[k].0 == x);
            }
            assert forall|x: u32|
                (exists|k: int| 0 <= k < out@.len() && (#[trigger] out@[k]).0 == x) implies
                bitmap_elems(*bm).contains(x) by {
                let k = choose|k: int| 0 <= k < out@.len() && (#[trigger] out@[k]).0 == x;
                assert(raw@[k] == x);
                assert(raw@.contains(x));
            }
        }
        out
    }

    /// The nodes directly tagged with `tag`, in increasing id order. This
    /// is the narrow query: subtree members are not included, unlike
    /// `search_bitmap` on a single tag. Fails with `NotFound` when the
    /// membership index has no entry for the tag.
    pub fn get_nodes_with_tag(&self, tag: TagId) -> (r: Result<Vec<NodeId>, RepoError>)
        requires
            self.wf(),
        ensures
            match r {
                Ok(v) => {
                    &&& self.direct_view().contains_key(tag.0)
                    &&& forall|i: int, j: int| 0 <= i < j < v@.len() ==> v@[i].0 < v@[j].0
                    &&& forall|x: u32|
                        self.direct_view()[tag.0].contains(x) <==> exists|i: int|
                            0 <= i < v@.len() && (#[trigger] v@[i]).0 == x
                },
                Err(e) => e is NotFound && !self.direct_view().contains_key(tag.0),
            },
    {
        match kv_get(&self.tag_membership.direct_nodes, tag.0) {
            Some(bm) => {
                proof {
                    assert(bitmap_elems(kv_map(self.tag_membership.direct_nodes@)[tag.0])
                        == self.direct_view()[tag.0]);
                }
                Ok(self.node_ids_from_bitmap(bm))
            },
            None => Err(
                RepoError::NotFound(String::from_str("get_nodes_with_tag: tag not found")),
            ),
        }
    }

    /// Attaches payload to the catalog through the blob layer: the single
    /// entry point for storing bytes that a future node record will
    /// reference. Delegates to [`crate::blob::DataBlob::from_data`].
    pub fn upload_data<S: crate::blob::BlobStore>(
        &mut self,
        store: &mut S,
        data: &[u8],
    ) -> (r: Result<crate::blob::DataBlob, crate::blob::BlobError>)
        where <S as crate::blob::BlobStore>::Error: core::fmt::Debug
        ensures
            *final(self) == *old(self),
            match r {
                Ok(b) => {
                    &&& data@.len() <= crate::blob::CHUNK_SIZE ==> {
                        &&& b@ == (crate::blob::DataBlobView::Single {
                            blob: crate::blob::blake3_digest(data@),
                            size: data@.len() as u64,
                        })
                        &&& final(store).contents() == old(store).contents().insert(
                            crate::blob::blake3_digest(data@),
                            data@,
                        )
                    }
                    &&& data@.len() > crate::blob::CHUNK_SIZE ==> {
                        &&& b@ == (crate::blob::DataBlobView::Chunked {
                            manifest: crate::blob::blake3_digest(
                                crate::codec::manifest_enc(crate::blob::manifest_for(data@)),
                            ),
                            size: data@.len() as u64,
                        })
                        &&& final(store).contents() == crate::blob::chunked_stored(
                            old(store).contents(),
                            data@,
                        )
                    }
                },
                Err(e) => e is StoreError,
            },
    {
        crate::blob::DataBlob::from_data(store, data)
    }

    /// Rebuilds every derived index, in dependency order: path lookup, then
    /// hierarchy, then membership.
    pub fn rebuild_all_indexes(&mut self)
        requires
            unique_tag_ids(old(self).tags_seq()),
        ensures
            final(self).indexes_ok(),
            final(self).nodes_seq() == old(self).nodes_seq(),
            final(self).tags_seq() == old(self).tags_seq(),
            final(self).next_node() == old(self).next_node(),
            final(self).next_tag() == old(self).next_tag(),
    {
        self.rebuild_tag_path_index();
        self.rebuild_tag_hierarchy_from_paths();
        self.rebuild_tag_membership_indexes();
    }
}


/// Processing one node's tag list adds the node to exactly the listed tags'
/// direct sets.
proof fn lemma_member_node_direct(
    direct: Map<u32, Set<u32>>,
    sub: Map<u32, Set<u32>>,
    pm: Map<u32, Option<u32>>,
    tags: Seq<TagView>,
    node: NodeView,
    j: nat,
    t: u32,
    x: u32,
)
    requires
        j <= node.tags.len(),
    ensures
        set_get_or_empty(member_node(direct, sub, pm, tags, node, j).0, t).contains(x) <==> (
        set_get_or_empty(direct, t).contains(x) || (x == node.id && node.tags.take(
            j as int,
        ).contains(t))),
    decreases j,
{
    if j == 0 {
        assert(node.tags.take(0) =~= Seq::<u32>::empty());
        assert(!node.tags.take(0).contains(t));
    } else {
        lemma_member_node_direct(direct, sub, pm, tags, node, (j - 1) as nat, t, x);
        let prev = member_node(direct, sub, pm, tags, node, (j - 1) as nat);
        let tj = node.tags[j - 1];
        assert(member_node(direct, sub, pm, tags, node, j).0 == set_add(prev.0, tj, node.id));
        if node.tags.take(j as int).contains(t) {
            let k = choose|k: int| 0 <= k < j && #[trigger] node.tags.take(j as int)[k] == t;
            if k < j - 1 {
                assert(node.tags.take(j - 1)[k] == t);
                assert(node.tags.take(j - 1).contains(t));
            }
        }
        if node.tags.take(j - 1).contains(t) {
            let k = choose|k: int| 0 <= k < j - 1 && #[trigger] node.tags.take(j - 1)[k] == t;
            assert(node.tags.take(j as int)[k] == t);
            assert(node.tags.take(j as int).contains(t));
        }
        if t == tj {
            assert(node.tags.take(j as int)[j - 1] == t);
            assert(node.tags.take(j as int).contains(t));
        }
    }
}

/// Folding the first `i` nodes adds exactly the live listed memberships.
proof fn lemma_member_fold_direct(
    pm: Map<u32, Option<u32>>,
    tags: Seq<TagView>,
    nodes: Seq<NodeView>,
    i: nat,
    t: u32,
    x: u32,
)
    requires
        i <= nodes.len(),
    ensures
        set_get_or_empty(member_fold(pm, tags, nodes, i).0, t).contains(x) <==> exists|k: int|
            0 <= k < i && !(#[trigger] nodes[k]).deleted && nodes[k].id == x
                && nodes[k].tags.contains(t),
    decreases i,
{
    if i > 0 {
        lemma_member_fold_direct(pm, tags, nodes, (i - 1) as nat, t, x);
        let prev = member_fold(pm, tags, nodes, (i - 1) as nat);
        let node = nodes[i - 1];
        if !node.deleted {
            lemma_member_node_direct(prev.0, prev.1, pm, tags, node, node.tags.len(), t, x);
            assert(node.tags.take(node.tags.len() as int) =~= node.tags);
        }
        if set_get_or_empty(member_fold(pm, tags, nodes, i).0, t).contains(x) {
            if !node.deleted && x == node.id && node.tags.contains(t) {
                assert(0 <= i - 1 < i && !nodes[i - 1].deleted && nodes[i - 1].id == x && nodes[i
                    - 1].tags.contains(t));
            } else {
                let k = choose|k: int|
                    0 <= k < i - 1 && !(#[trigger] nodes[k]).deleted && nodes[k].id == x
                        && nodes[k].tags.contains(t);
            }
        }
        if exists|k: int|
            0 <= k < i && !(#[trigger] nodes[k]).deleted && nodes[k].id == x
                && nodes[k].tags.contains(t) {
            let k = choose|k: int|
                0 <= k < i && !(#[trigger] nodes[k]).deleted && nodes[k].id == x
                    && nodes[k].tags.contains(t);
            if k < i - 1 {
                assert(set_get_or_empty(prev.0, t).contains(x));
            }
        }
    }
}

/// Direct-membership law: a node id stands in a tag's direct set exactly
/// when some live node with that id lists the tag explicitly. Subtree sets
/// collect nodes only through strict-descendant walks, never through this.
pub proof fn lemma_direct_membership(nodes: Seq<NodeView>, tags: Seq<TagView>, t: u32, x: u32)
    ensures
        set_get_or_empty(direct_index_of(nodes, tags), t).contains(x) <==> exists|k: int|
            0 <= k < nodes.len() && !(#[trigger] nodes[k]).deleted && nodes[k].id == x
                && nodes[k].tags.contains(t),
{
    lemma_member_fold_direct(parent_index_of(tags), tags, nodes, nodes.len(), t, x);
}

/// The strict ancestors a walk from `t` reaches within `fuel` steps: the
/// parent, the parent's parent, and so on, stopping at the first root or
/// unknown tag.
pub open spec fn ancestors_set(pm: Map<u32, Option<u32>>, t: u32, fuel: nat) -> Set<u32>
    decreases fuel,
{
    if fuel == 0 {
        Set::empty()
    } else if !pm.contains_key(t) {
        Set::empty()
    } else {
        match pm[t] {
            None => Set::empty(),
            Some(p) => ancestors_set(pm, p, (fuel - 1) as nat).insert(p),
        }
    }
}

/// Every tag an ancestor walk reaches sits at a strictly smaller depth
/// than the tag the walk started from.
pub proof fn lemma_ancestors_below(tags: Seq<TagView>, s: u32)
    requires
        unique_tag_ids(tags),
    ensures
        forall|a: u32|
            #[trigger] ancestors_set(parent_index_of(tags), s, fuel_of(tags, s)).contains(a)
                ==> fuel_of(tags, a) < fuel_of(tags, s),
    decreases fuel_of(tags, s),
{
    let pm = parent_index_of(tags);
    let fuel = fuel_of(tags, s);
    if fuel != 0 && pm.contains_key(s) && pm[s] is Some {
        let p = pm[s]->0;
        lemma_parent_step(tags, s, p);
        lemma_ancestors_below(tags, p);
        assert(ancestors_set(pm, s, fuel) == ancestors_set(pm, p, (fuel - 1) as nat).insert(p));
        assert(fuel_of(tags, p) == fuel - 1);
    }
}

/// A tag is never its own strict ancestor, so a node tagged only with `t`
/// never enters `t`'s own subtree set.
pub proof fn lemma_no_self_ancestor(tags: Seq<TagView>, t: u32)
    requires
        unique_tag_ids(tags),
    ensures
        !ancestors_set(parent_index_of(tags), t, fuel_of(tags, t)).contains(t),
{
    lemma_ancestors_below(tags, t);
}

/// One ancestor walk adds the node to exactly the reached ancestors' sets.
proof fn lemma_add_ancestors_char(
    sub: Map<u32, Set<u32>>,
    pm: Map<u32, Option<u32>>,
    s: u32,
    nid: u32,
    fuel: nat,
    t: u32,
    x: u32,
)
    ensures
        set_get_or_empty(add_ancestors(sub, pm, s, nid, fuel), t).contains(x) <==> (
        set_get_or_empty(sub, t).contains(x) || (x == nid && ancestors_set(pm, s, fuel).contains(
            t,
        ))),
    decreases fuel,
{
    if fuel == 0 || !pm.contains_key(s) {
    } else {
        match pm[s] {
            None => {},
            Some(p) => {
                lemma_add_ancestors_char(
                    set_add(sub, p, nid),
                    pm,
                    p,
                    nid,
                    (fuel - 1) as nat,
                    t,
                    x,
                );
            },
        }
    }
}

/// Processing one node's tag list adds the node to exactly the subtree sets
/// of its tags' strict ancestors.
proof fn lemma_member_node_subtree(
    direct: Map<u32, Set<u32>>,
    sub: Map<u32, Set<u32>>,
    pm: Map<u32, Option<u32>>,
    tags: Seq<TagView>,
    node: NodeView,
    j: nat,
    t: u32,
    x: u32,
)
    requires
        j <= node.tags.len(),
    ensures
        set_get_or_empty(member_node(direct, sub, pm, tags, node, j).1, t).contains(x) <==> (
        set_get_or_empty(sub, t).contains(x) || (x == node.id && exists|k: int|
            0 <= k < j && ancestors_set(
                pm,
                #[trigger] node.tags[k],
                fuel_of(tags, node.tags[k]),
            ).contains(t))),
    decreases j,
{
    if j > 0 {
        lemma_member_node_subtree(direct, sub, pm, tags, node, (j - 1) as nat, t, x);
        let prev = member_node(direct, sub, pm, tags, node, (j - 1) as nat);
        let tj = node.tags[j - 1];
        lemma_add_ancestors_char(prev.1, pm, tj, node.id, fuel_of(tags, tj), t, x);
        if set_get_or_empty(member_node(direct, sub, pm, tags, node, j).1, t).contains(x) {
            if set_get_or_empty(prev.1, t).contains(x) {
                if !set_get_or_empty(sub, t).contains(x) {
                    let k = choose|k: int|
                        0 <= k < j - 1 && ancestors_set(
                            pm,
                            #[trigger] node.tags[k],
                            fuel_of(tags, node.tags[k]),
                        ).contains(t);
                    assert(0 <= k < j && ancestors_set(
                        pm,
                        node.tags[k],
                        fuel_of(tags, node.tags[k]),
                    ).contains(t));
                }
            } else {
                assert(ancestors_set(pm, node.tags[j - 1], fuel_of(tags, node.tags[j - 1]))
                    .contains(t));
            }
        }
        if !set_get_or_empty(member_node(direct, sub, pm, tags, node, j).1, t).contains(x)
            && x == node.id {
            assert forall|k: int|
                0 <= k < j implies !ancestors_set(
                pm,
                #[trigger] node.tags[k],
                fuel_of(tags, node.tags[k]),
            ).contains(t) by {
                if k < j - 1 && ancestors_set(pm, node.tags[k], fuel_of(tags, node.tags[k]))
                    .contains(t) {
                    assert(set_get_or_empty(prev.1, t).contains(x));
                }
            }
        }
    }
}

/// Folding the first `i` nodes adds exactly the live ancestor memberships.
proof fn lemma_member_fold_subtree(
    pm: Map<u32, Option<u32>>,
    tags: Seq<TagView>,
    nodes: Seq<NodeView>,
    i: nat,
    t: u32,
    x: u32,
)
    requires
        i <= nodes.len(),
    ensures
        set_get_or_empty(member_fold(pm, tags, nodes, i).1, t).contains(x) <==> exists|k: int, j: int|
            0 <= k < i && !(#[trigger] nodes[k]).deleted && nodes[k].id == x && 0 <= j
                < nodes[k].tags.len() && ancestors_set(
                pm,
                #[trigger] nodes[k].tags[j],
                fuel_of(tags, nodes[k].tags[j]),
            ).contains(t),
    decreases i,
{
    if i > 0 {
        lemma_member_fold_subtree(pm, tags, nodes, (i - 1) as nat, t, x);
        let prev = member_fold(pm, tags, nodes, (i - 1) as nat);
        let node = nodes[i - 1];
        if !node.deleted {
            lemma_member_node_subtree(prev.0, prev.1, pm, tags, node, node.tags.len(), t, x);
        }
        if set_get_or_empty(member_fold(pm, tags, nodes, i).1, t).contains(x) {
            if set_get_or_empty(prev.1, t).contains(x) {
                let (k, j) = choose|k: int, j: int|
                    0 <= k < i - 1 && !(#[trigger] nodes[k]).deleted && nodes[k].id == x && 0 <= j
                        < nodes[k].tags.len() && ancestors_set(
                        pm,
                        #[trigger] nodes[k].tags[j],
                        fuel_of(tags, nodes[k].tags[j]),
                    ).contains(t);
                assert(0 <= k < i && !nodes[k].deleted && nodes[k].id == x && 0 <= j
                    < nodes[k].tags.len() && ancestors_set(
                    pm,
                    nodes[k].tags[j],
                    fuel_of(tags, nodes[k].tags[j]),
                ).contains(t));
            } else {
                let j = choose|j: int|
                    0 <= j < node.tags.len() && ancestors_set(
                        pm,
                        #[trigger] node.tags[j],
                        fuel_of(tags, node.tags[j]),
                    ).contains(t);
                assert(0 <= i - 1 < i && !nodes[i - 1].deleted && nodes[i - 1].id == x && 0 <= j
                    < nodes[i - 1].tags.len() && ancestors_set(
                    pm,
                    nodes[i - 1].tags[j],
                    fuel_of(tags, nodes[i - 1].tags[j]),
                ).contains(t));
            }
        }
        if exists|k: int, j: int|
            0 <= k < i && !(#[trigger] nodes[k]).deleted && nodes[k].id == x && 0 <= j
                < nodes[k].tags.len() && ancestors_set(
                pm,
                #[trigger] nodes[k].tags[j],
                fuel_of(tags, nodes[k].tags[j]),
            ).contains(t) {
            let (k, j) = choose|k: int, j: int|
                0 <= k < i && !(#[trigger] nodes[k]).deleted && nodes[k].id == x && 0 <= j
                    < nodes[k].tags.len() && ancestors_set(
                    pm,
                    #[trigger] nodes[k].tags[j],
                    fuel_of(tags, nodes[k].tags[j]),
                ).contains(t);
            if k < i - 1 {
                assert(set_get_or_empty(prev.1, t).contains(x));
            }
        }
    }
}

/// Subtree-membership law: a node id stands in a tag's subtree set exactly
/// when some live node with that id carries a tag whose strict-ancestor
/// walk reaches the tag. Directly tagged nodes enter a tag's subtree set
/// only through some other, descendant tag they also carry.
pub proof fn lemma_subtree_membership(nodes: Seq<NodeView>, tags: Seq<TagView>, t: u32, x: u32)
    ensures
        set_get_or_empty(subtree_index_of(nodes, tags), t).contains(x) <==> exists|k: int, j: int|
            0 <= k < nodes.len() && !(#[trigger] nodes[k]).deleted && nodes[k].id == x && 0 <= j
                < nodes[k].tags.len() && ancestors_set(
                parent_index_of(tags),
                #[trigger] nodes[k].tags[j],
                fuel_of(tags, nodes[k].tags[j]),
            ).contains(t),
{
    lemma_member_fold_subtree(parent_index_of(tags), tags, nodes, nodes.len(), t, x);
}

/// Round-trip law: saving then loading yields canonical maps identical to
/// the originals, and — every derived index being a pure function of
/// canonical state — a post-load rebuild produces indexes identical to
/// rebuilding from the pre-save state directly.
pub proof fn lemma_save_load_roundtrip(nodes: Seq<NodeView>, tags: Seq<TagView>)
    requires
        crate::persist::doc_bounded(nodes, tags),
    ensures
        crate::persist::pdoc(crate::persist::render_doc(nodes, tags)) == Some((nodes, tags)),
        ({
            let parsed = crate::persist::pdoc(crate::persist::render_doc(nodes, tags))->0;
            &&& path_index_of(parsed.1) == path_index_of(tags)
            &&& parent_index_of(parsed.1) == parent_index_of(tags)
            &&& children_index_of(parsed.1) == children_index_of(tags)
            &&& direct_index_of(parsed.0, parsed.1) == direct_index_of(nodes, tags)
            &&& subtree_index_of(parsed.0, parsed.1) == subtree_index_of(nodes, tags)
        }),
{
    crate::persist::lemma_doc_roundtrip(nodes, tags);
}

impl Default for Repository {
    /// An empty repository, as [`Repository::new`] builds it.
    fn default() -> (r: Repository)
        ensures
            r.wf(),
            r.nodes_seq() == Seq::<NodeView>::empty(),
            r.tags_seq() == Seq::<TagView>::empty(),
            r.next_node() == 0,
            r.next_tag() == 0,
    {
        Repository::new()
    }
}

/// A boolean query over tags: a tag denotes its effective member set, and
/// queries combine by union, intersection, and complement against the live
/// nodes.
#[derive(Debug)]
pub enum TagQuery {
    Tag(TagId),
    Or(Box<TagQuery>, Box<TagQuery>),
    And(Box<TagQuery>, Box<TagQuery>),
    Not(Box<TagQuery>),
}

/// Failures of the repository facade.
#[derive(Debug)]
pub enum RepoError {
    /// A referenced node, tag, or path does not exist; carries context.
    NotFound(String),
    /// A malformed path input.
    InvalidTagPath,
    /// Canonical (de)serialization failed.
    Serialization,
    /// An unclassified failure.
    Other(String),
}

} // verus!
