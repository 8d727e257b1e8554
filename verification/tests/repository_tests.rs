use archivum_core::blob::{BlobId, DataBlob, DataBlobMetadata, MemoryBlobStore};
use archivum_core::node::{NodeId, NodeRecord};
use archivum_core::node_type::{Bookmark, File, NodeType};
use archivum_core::repository::{RepoError, Repository, TagQuery};
use archivum_core::tag::{TagColors, TagId, TagRecord};

fn dummy_blob() -> DataBlob {
    DataBlob::Single { blob: BlobId(vec![0u8; 32]), metadata: DataBlobMetadata { original_size: 0 } }
}

fn bookmark_node(id: u32, tags: Vec<TagId>) -> NodeRecord {
    NodeRecord::new(
        NodeId(id),
        NodeType::Bookmark(Bookmark::new(dummy_blob(), Some("a title".to_string()))),
        tags,
        "2025-01-01".to_string(),
        "2025-01-02".to_string(),
    )
}

fn tag(id: u32, path: &[&str]) -> TagRecord {
    TagRecord::new(
        TagId(id),
        path.iter().map(|s| s.to_string()).collect(),
        Some(TagColors::Blue),
    )
}

#[test]
fn hierarchy_parent_chain_derives_from_paths() {
    let mut repo = Repository::new();
    repo.upsert_tag(tag(0, &["a"])).unwrap();
    repo.upsert_tag(tag(1, &["a", "b"])).unwrap();
    repo.upsert_tag(tag(2, &["a", "b", "c"])).unwrap();
    assert_eq!(repo.get_parent_tag(TagId(2)), Some(Some(TagId(1))));
    assert_eq!(repo.get_parent_tag(TagId(1)), Some(Some(TagId(0))));
    assert_eq!(repo.get_parent_tag(TagId(0)), Some(None));
    assert_eq!(repo.get_child_tags(TagId(0)), Some(&vec![TagId(1)]));
    assert_eq!(repo.get_child_tags(TagId(1)), Some(&vec![TagId(2)]));
    assert_eq!(repo.get_child_tags(TagId(2)), None);
}

#[test]
fn tombstoning_a_tag_orphans_its_descendants() {
    let mut repo = Repository::new();
    repo.upsert_tag(tag(0, &["a"])).unwrap();
    repo.upsert_tag(tag(1, &["a", "b"])).unwrap();
    repo.upsert_tag(tag(2, &["a", "b", "c"])).unwrap();
    repo.delete_tag(TagId(1)).unwrap();
    // the tombstoned tag leaves the hierarchy; its child no longer resolves
    // a parent through it
    assert_eq!(repo.get_parent_tag(TagId(1)), None);
    assert_eq!(repo.get_parent_tag(TagId(2)), Some(None));
    assert_eq!(repo.get_parent_tag(TagId(0)), Some(None));
}

#[test]
fn membership_split_between_direct_and_subtree() {
    let mut repo = Repository::new();
    repo.upsert_tag(tag(0, &["a"])).unwrap();
    repo.upsert_tag(tag(1, &["a", "b"])).unwrap();
    repo.upsert_node(bookmark_node(0, vec![])).unwrap();
    repo.tag_node(NodeId(0), TagId(1)).unwrap();
    // direct members of b: exactly the node
    assert_eq!(repo.get_nodes_with_tag(TagId(1)).unwrap(), vec![NodeId(0)]);
    // a has no direct members at all, so the narrow query fails
    assert!(matches!(repo.get_nodes_with_tag(TagId(0)), Err(RepoError::NotFound(_))));
    // but the effective set of a includes the node through the subtree
    let bm = repo.search_bitmap(TagQuery::Tag(TagId(0))).unwrap();
    assert_eq!(repo.node_ids_from_bitmap(&bm), vec![NodeId(0)]);
    let bm_b = repo.search_bitmap(TagQuery::Tag(TagId(1))).unwrap();
    assert_eq!(repo.node_ids_from_bitmap(&bm_b), vec![NodeId(0)]);
}

#[test]
fn boolean_queries_combine_effective_sets() {
    let mut repo = Repository::new();
    repo.upsert_tag(tag(0, &["a"])).unwrap();
    repo.upsert_tag(tag(1, &["b"])).unwrap();
    repo.upsert_node(bookmark_node(0, vec![TagId(0)])).unwrap();
    repo.upsert_node(bookmark_node(1, vec![TagId(1)])).unwrap();
    repo.upsert_node(bookmark_node(2, vec![TagId(0), TagId(1)])).unwrap();

    let a = || Box::new(TagQuery::Tag(TagId(0)));
    let b = || Box::new(TagQuery::Tag(TagId(1)));

    let both = repo.search_bitmap(TagQuery::And(a(), b())).unwrap();
    assert_eq!(repo.node_ids_from_bitmap(&both), vec![NodeId(2)]);

    let either = repo.search_bitmap(TagQuery::Or(a(), b())).unwrap();
    assert_eq!(repo.node_ids_from_bitmap(&either), vec![NodeId(0), NodeId(1), NodeId(2)]);

    let not_a = repo.search_bitmap(TagQuery::Not(a())).unwrap();
    assert_eq!(repo.node_ids_from_bitmap(&not_a), vec![NodeId(1)]);

    let a_minus_b = repo.search_bitmap(TagQuery::And(a(), Box::new(TagQuery::Not(b())))).unwrap();
    assert_eq!(repo.node_ids_from_bitmap(&a_minus_b), vec![NodeId(0)]);
}

#[test]
fn tombstoned_ids_are_never_reallocated() {
    let mut repo = Repository::new();
    repo.upsert_node(bookmark_node(0, vec![])).unwrap();
    repo.delete_node(NodeId(0)).unwrap();
    assert_eq!(repo.get_next_node_id(), NodeId(1));
    assert_eq!(repo.get_next_node_id(), NodeId(1));
    repo.upsert_node(bookmark_node(1, vec![])).unwrap();
    repo.delete_node(NodeId(1)).unwrap();
    assert_eq!(repo.get_next_node_id(), NodeId(2));
    // the tombstoned records remain addressable
    assert!(*repo.get_node(NodeId(0)).unwrap().get_deleted());
}

#[test]
fn end_to_end_tagging_survives_save_and_load() {
    let mut repo = Repository::new();
    let mut store = MemoryBlobStore::new();

    let t0 = repo.get_next_tag_id();
    repo.upsert_tag(TagRecord::new(t0, vec!["work".to_string()], None)).unwrap();

    let blob = repo.upload_data(&mut store, b"some document").unwrap();
    let n0 = repo.get_next_node_id();
    let record = NodeRecord::new(
        n0,
        NodeType::File(File::new("doc.txt".to_string(), Some("text/plain".to_string()), blob)),
        vec![],
        "2025-02-03".to_string(),
        "2025-02-03".to_string(),
    );
    repo.upsert_node(record).unwrap();
    repo.tag_node(n0, t0).unwrap();

    let saved = repo.save_to_json().unwrap();
    let reloaded = Repository::load_from_json(&saved).unwrap();
    assert_eq!(reloaded.get_nodes_with_tag(t0).unwrap(), vec![n0]);
}

#[test]
fn save_load_round_trip_is_exact() {
    let mut repo = Repository::new();
    repo.upsert_tag(tag(0, &["a"])).unwrap();
    repo.upsert_tag(tag(1, &["a", "b"])).unwrap();
    repo.delete_tag(TagId(1)).unwrap();
    repo.upsert_node(bookmark_node(0, vec![TagId(0)])).unwrap();
    repo.upsert_node(NodeRecord::new(
        NodeId(7),
        NodeType::File(File::new("x/y.bin".to_string(), None, dummy_blob())),
        vec![TagId(0), TagId(1)],
        "t1".to_string(),
        "t2".to_string(),
    ))
    .unwrap();
    repo.delete_node(NodeId(0)).unwrap();

    let first = repo.save_to_json().unwrap();
    let reloaded = Repository::load_from_json(&first).unwrap();
    let second = reloaded.save_to_json().unwrap();
    // the canonical form is deterministic, so equal states render equally
    assert_eq!(first, second);

    let node = reloaded.get_node(NodeId(7)).unwrap();
    assert_eq!(node.get_id(), &NodeId(7));
    assert_eq!(node.get_tags(), &vec![TagId(0), TagId(1)]);
    assert_eq!(node.get_date_created().as_str(), "t1");
    assert_eq!(node.get_date_updated().as_str(), "t2");
    match node.get_data_ref() {
        NodeType::File(f) => {
            assert_eq!(f.get_filename().as_str(), "x/y.bin");
            assert_eq!(f.get_mime_type(), &None::<String>);
        },
        _ => panic!("expected a file payload"),
    }
    let t = reloaded.get_tag(TagId(1)).unwrap();
    assert!(*t.get_deleted());
    assert_eq!(t.get_path(), &vec!["a".to_string(), "b".to_string()]);
    assert_eq!(t.get_color(), &TagColors::Blue);
    assert!(*reloaded.get_node(NodeId(0)).unwrap().get_deleted());
}

#[test]
fn load_recomputes_counters_past_the_largest_id() {
    let mut repo = Repository::new();
    repo.upsert_node(bookmark_node(4, vec![])).unwrap();
    repo.upsert_tag(tag(9, &["a"])).unwrap();
    let saved = repo.save_to_json().unwrap();
    let mut reloaded = Repository::load_from_json(&saved).unwrap();
    assert_eq!(reloaded.get_next_node_id(), NodeId(5));
    assert_eq!(reloaded.get_next_tag_id(), TagId(10));

    let empty = Repository::new().save_to_json().unwrap();
    let mut fresh = Repository::load_from_json(&empty).unwrap();
    assert_eq!(fresh.get_next_node_id(), NodeId(0));
    assert_eq!(fresh.get_next_tag_id(), TagId(0));
}

#[test]
fn malformed_documents_are_rejected() {
    assert!(matches!(Repository::load_from_json(""), Err(RepoError::Serialization)));
    assert!(matches!(Repository::load_from_json("hello"), Err(RepoError::Serialization)));
    assert!(matches!(
        Repository::load_from_json("00000000000000000001"),
        Err(RepoError::Serialization)
    ));
}

#[test]
fn tagging_requires_both_ids_to_exist() {
    let mut repo = Repository::new();
    repo.upsert_tag(tag(0, &["a"])).unwrap();
    assert!(matches!(repo.tag_node(NodeId(0), TagId(0)), Err(RepoError::NotFound(_))));
    repo.upsert_node(bookmark_node(0, vec![])).unwrap();
    assert!(matches!(repo.tag_node(NodeId(0), TagId(5)), Err(RepoError::NotFound(_))));
    assert!(matches!(repo.untag_node(NodeId(3), TagId(0)), Err(RepoError::NotFound(_))));
    assert!(matches!(repo.delete_node(NodeId(3)), Err(RepoError::NotFound(_))));
    assert!(matches!(repo.delete_tag(TagId(5)), Err(RepoError::NotFound(_))));
}

#[test]
fn tagging_is_idempotent_and_untagging_removes() {
    let mut repo = Repository::new();
    repo.upsert_tag(tag(0, &["a"])).unwrap();
    repo.upsert_node(bookmark_node(0, vec![])).unwrap();
    repo.tag_node(NodeId(0), TagId(0)).unwrap();
    repo.tag_node(NodeId(0), TagId(0)).unwrap();
    assert_eq!(repo.get_node(NodeId(0)).unwrap().get_tags(), &vec![TagId(0)]);
    repo.untag_node(NodeId(0), TagId(0)).unwrap();
    assert_eq!(repo.get_node(NodeId(0)).unwrap().get_tags(), &Vec::<TagId>::new());
    // with no member left, the direct index has no entry for the tag
    assert!(matches!(repo.get_nodes_with_tag(TagId(0)), Err(RepoError::NotFound(_))));
}

#[test]
fn upsert_replaces_by_id_and_advances_the_counter() {
    let mut repo = Repository::new();
    repo.upsert_node(bookmark_node(0, vec![])).unwrap();
    let replacement = NodeRecord::new(
        NodeId(0),
        NodeType::Bookmark(Bookmark::new(dummy_blob(), None)),
        vec![],
        "later".to_string(),
        "later".to_string(),
    );
    repo.upsert_node(replacement).unwrap();
    assert_eq!(repo.iter_nodes().len(), 1);
    assert_eq!(repo.get_node(NodeId(0)).unwrap().get_date_created().as_str(), "later");
    assert_eq!(repo.get_next_node_id(), NodeId(1));
}

#[test]
fn iteration_skips_tombstoned_records() {
    let mut repo = Repository::new();
    repo.upsert_node(bookmark_node(0, vec![])).unwrap();
    repo.upsert_node(bookmark_node(1, vec![])).unwrap();
    repo.delete_node(NodeId(0)).unwrap();
    let live: Vec<NodeId> = repo.iter_nodes().iter().map(|n| *n.get_id()).collect();
    assert_eq!(live, vec![NodeId(1)]);
    repo.upsert_tag(tag(0, &["a"])).unwrap();
    repo.upsert_tag(tag(1, &["b"])).unwrap();
    repo.delete_tag(TagId(1)).unwrap();
    let live_tags: Vec<TagId> = repo.iter_tags().iter().map(|t| *t.get_id()).collect();
    assert_eq!(live_tags, vec![TagId(0)]);
}

#[test]
fn tags_resolve_by_normalized_path() {
    let mut repo = Repository::new();
    repo.upsert_tag(tag(3, &["a", "b"])).unwrap();
    assert_eq!(repo.get_tag_by_path(vec!["a".to_string(), "b".to_string()]).unwrap(), TagId(3));
    assert!(matches!(
        repo.get_tag_by_path(vec!["a".to_string()]),
        Err(RepoError::NotFound(_))
    ));
}

#[test]
fn color_names_parse_ignoring_ascii_case() {
    assert_eq!("red".parse::<TagColors>(), Ok(TagColors::Red));
    assert_eq!("RED".parse::<TagColors>(), Ok(TagColors::Red));
    assert_eq!("Blue".parse::<TagColors>(), Ok(TagColors::Blue));
    assert_eq!("green".parse::<TagColors>(), Ok(TagColors::Green));
    assert_eq!("YeLLoW".parse::<TagColors>(), Ok(TagColors::Yellow));
    assert_eq!("purple".parse::<TagColors>(), Ok(TagColors::Purple));
    assert_eq!("gray".parse::<TagColors>(), Ok(TagColors::Gray));
    assert_eq!("mauve".parse::<TagColors>(), Err(()));
    assert_eq!("".parse::<TagColors>(), Err(()));
    assert_eq!(TagColors::Purple.name(), "purple");
}

#[test]
fn record_constructors_default_sensibly() {
    let t = TagRecord::new(TagId(2), vec!["x".to_string()], None);
    assert_eq!(t.get_id(), &TagId(2));
    assert_eq!(t.get_color(), &TagColors::Gray);
    assert!(!*t.get_deleted());
    let n = bookmark_node(5, vec![TagId(2)]);
    assert_eq!(n.get_id(), &NodeId(5));
    assert!(!*n.get_deleted());
    assert_eq!(n.get_tags(), &vec![TagId(2)]);
    assert_eq!(TagId::from(7u32), TagId(7));
    assert_eq!(NodeId::from(7u32), NodeId(7));
}

#[test]
fn membership_propagates_to_every_strict_ancestor() {
    let mut repo = Repository::new();
    repo.upsert_tag(tag(0, &["a"])).unwrap();
    repo.upsert_tag(tag(1, &["a", "b"])).unwrap();
    repo.upsert_tag(tag(2, &["a", "b", "c"])).unwrap();
    repo.upsert_node(bookmark_node(0, vec![TagId(2)])).unwrap();
    repo.upsert_node(bookmark_node(1, vec![TagId(0)])).unwrap();

    assert_eq!(repo.get_nodes_with_tag(TagId(2)).unwrap(), vec![NodeId(0)]);
    assert!(matches!(repo.get_nodes_with_tag(TagId(1)), Err(RepoError::NotFound(_))));
    // the deep tag's node reaches both ancestors through their subtree sets
    let at_b = repo.search_bitmap(TagQuery::Tag(TagId(1))).unwrap();
    assert_eq!(repo.node_ids_from_bitmap(&at_b), vec![NodeId(0)]);
    let at_a = repo.search_bitmap(TagQuery::Tag(TagId(0))).unwrap();
    assert_eq!(repo.node_ids_from_bitmap(&at_a), vec![NodeId(0), NodeId(1)]);
}

#[test]
fn tombstoned_nodes_leave_the_membership_index() {
    let mut repo = Repository::new();
    repo.upsert_tag(tag(0, &["a"])).unwrap();
    repo.upsert_node(bookmark_node(0, vec![TagId(0)])).unwrap();
    assert_eq!(repo.get_nodes_with_tag(TagId(0)).unwrap(), vec![NodeId(0)]);
    repo.delete_node(NodeId(0)).unwrap();
    // no live member is left, so the rebuilt index has no entry for the tag
    assert!(matches!(repo.get_nodes_with_tag(TagId(0)), Err(RepoError::NotFound(_))));
    let bm = repo.search_bitmap(TagQuery::Tag(TagId(0))).unwrap();
    assert_eq!(repo.node_ids_from_bitmap(&bm), Vec::<NodeId>::new());
}

#[test]
fn duplicate_live_paths_resolve_to_the_last_writer() {
    let mut repo = Repository::new();
    repo.upsert_tag(tag(0, &["x"])).unwrap();
    repo.upsert_tag(tag(1, &["x"])).unwrap();
    assert_eq!(repo.get_tag_by_path(vec!["x".to_string()]).unwrap(), TagId(1));
    repo.delete_tag(TagId(1)).unwrap();
    assert_eq!(repo.get_tag_by_path(vec!["x".to_string()]).unwrap(), TagId(0));
}

#[test]
fn unusual_record_contents_survive_the_round_trip() {
    let mut repo = Repository::new();
    // an empty path is a root with an empty join key
    repo.upsert_tag(TagRecord::new(TagId(0), vec![], None)).unwrap();
    // segments may contain the separator and non-ASCII text
    repo.upsert_tag(tag(1, &["a/b", "später 日本語"])).unwrap();
    repo.upsert_node(NodeRecord::new(
        NodeId(0),
        NodeType::File(File::new("ünicode — 名前.txt".to_string(), Some(String::new()), dummy_blob())),
        vec![TagId(0)],
        String::new(),
        "0123456789".repeat(5),
    ))
    .unwrap();
    let saved = repo.save_to_json().unwrap();
    let reloaded = Repository::load_from_json(&saved).unwrap();
    assert_eq!(saved, reloaded.save_to_json().unwrap());
    let node = reloaded.get_node(NodeId(0)).unwrap();
    match node.get_data_ref() {
        NodeType::File(f) => {
            assert_eq!(f.get_filename().as_str(), "ünicode — 名前.txt");
            assert_eq!(f.get_mime_type(), &Some(String::new()));
        },
        _ => panic!("expected a file payload"),
    }
    assert_eq!(
        reloaded.get_tag(TagId(1)).unwrap().get_path(),
        &vec!["a/b".to_string(), "später 日本語".to_string()]
    );
    assert_eq!(reloaded.get_parent_tag(TagId(0)), Some(None));
}
