use archivum_core::blob::{
    BlobError, BlobId, BlobManifest, BlobStore, DataBlob, DataBlobMetadata, MemoryBlobStore,
    CHUNK_SIZE,
};
use archivum_core::codec::{decode_manifest, encode_manifest};

/// A backend for fault injection: it can refuse uploads, and it can corrupt
/// the nth uploaded object when it is downloaded again.
struct TestStore {
    entries: Vec<(Vec<u8>, Vec<u8>)>,
    corrupt_nth: Option<usize>,
    fail_uploads: bool,
}

impl TestStore {
    fn new() -> TestStore {
        TestStore { entries: Vec::new(), corrupt_nth: None, fail_uploads: false }
    }
}

impl BlobStore for TestStore {
    type Error = String;

    fn upload(&mut self, blob_id: &BlobId, data: &[u8]) -> Result<(), String> {
        if self.fail_uploads {
            return Err("backend unavailable".to_string());
        }
        self.entries.push((blob_id.0.clone(), data.to_vec()));
        Ok(())
    }

    fn download(&self, blob_id: &BlobId) -> Result<Vec<u8>, String> {
        for (i, (k, v)) in self.entries.iter().enumerate() {
            if k == &blob_id.0 {
                let mut out = v.clone();
                if self.corrupt_nth == Some(i) {
                    if out.is_empty() {
                        out.push(1);
                    } else {
                        out[0] ^= 0xff;
                    }
                }
                return Ok(out);
            }
        }
        Err("missing".to_string())
    }
}

fn sample(n: usize) -> Vec<u8> {
    (0..n).map(|i| (i % 251) as u8).collect()
}

#[test]
fn single_blob_round_trip_small_sizes() {
    for n in [0usize, 1, CHUNK_SIZE - 1, CHUNK_SIZE] {
        let data = sample(n);
        let mut store = MemoryBlobStore::new();
        let blob = DataBlob::from_data(&mut store, &data).unwrap();
        assert!(matches!(blob, DataBlob::Single { .. }));
        if let DataBlob::Single { ref metadata, .. } = blob {
            assert_eq!(metadata.original_size, n as u64);
        }
        let back = blob.retrieve_data(&store).unwrap();
        assert_eq!(back, data);
    }
}

#[test]
fn chunked_blob_round_trip_and_chunk_count() {
    let cases = [(CHUNK_SIZE + 1, 2u64), (65 * 1024 * 1024, 3u64)];
    for (n, expected_chunks) in cases {
        let data = sample(n);
        let mut store = MemoryBlobStore::new();
        let blob = DataBlob::from_data(&mut store, &data).unwrap();
        assert!(matches!(blob, DataBlob::Chunked { .. }));
        if let DataBlob::Chunked { ref manifest, ref metadata } = blob {
            assert_eq!(metadata.original_size, n as u64);
            let manifest_bytes = store.download(manifest).unwrap();
            let m = decode_manifest(&manifest_bytes).unwrap();
            assert_eq!(m.parts.len() as u64, expected_chunks);
            assert_eq!(m.chunk_size as usize, CHUNK_SIZE);
        }
        let back = blob.retrieve_data(&store).unwrap();
        assert_eq!(back, data);
    }
}

#[test]
fn content_addressing_is_deterministic() {
    let data = sample(1024);
    let mut store = TestStore::new();
    let first = DataBlob::from_data(&mut store, &data).unwrap();
    let second = DataBlob::from_data(&mut store, &data).unwrap();
    let (a, b) = match (&first, &second) {
        (DataBlob::Single { blob: a, .. }, DataBlob::Single { blob: b, .. }) => (a, b),
        _ => panic!("expected single blobs"),
    };
    assert_eq!(a, b);
    // re-uploading identical content leaves the backend observably unchanged
    assert_eq!(first.retrieve_data(&store).unwrap(), data);
    assert_eq!(second.retrieve_data(&store).unwrap(), data);
}

#[test]
fn digest_matches_reference_implementation() {
    let data = b"hello world".to_vec();
    let mut store = MemoryBlobStore::new();
    let blob = DataBlob::from_data(&mut store, &data).unwrap();
    match blob {
        DataBlob::Single { blob: id, .. } => {
            assert_eq!(id.0, blake3::hash(&data).as_bytes().to_vec());
        },
        _ => panic!("expected a single blob"),
    }
}

#[test]
fn corrupted_single_blob_is_detected() {
    let data = sample(100);
    let mut store = TestStore::new();
    let blob = DataBlob::from_data(&mut store, &data).unwrap();
    store.corrupt_nth = Some(0);
    assert!(matches!(blob.retrieve_data(&store), Err(BlobError::IntegrityCheckFailed)));
}

#[test]
fn corrupted_chunk_is_detected() {
    let data = sample(CHUNK_SIZE + 5);
    let mut store = TestStore::new();
    let blob = DataBlob::from_data(&mut store, &data).unwrap();
    // uploads were: chunk 0, chunk 1, manifest
    store.corrupt_nth = Some(0);
    assert!(matches!(blob.retrieve_data(&store), Err(BlobError::IntegrityCheckFailed)));
}

#[test]
fn corrupted_manifest_is_detected() {
    let data = sample(CHUNK_SIZE + 5);
    let mut store = TestStore::new();
    let blob = DataBlob::from_data(&mut store, &data).unwrap();
    store.corrupt_nth = Some(2);
    assert!(matches!(blob.retrieve_data(&store), Err(BlobError::IntegrityCheckFailed)));
}

#[test]
fn upload_failure_surfaces_as_store_error() {
    let mut store = TestStore::new();
    store.fail_uploads = true;
    let data = sample(10);
    assert!(matches!(DataBlob::from_data(&mut store, &data), Err(BlobError::StoreError(_))));
}

#[test]
fn missing_blob_surfaces_as_store_error() {
    let store = MemoryBlobStore::new();
    let blob = DataBlob::Single {
        blob: BlobId(vec![0u8; 32]),
        metadata: DataBlobMetadata { original_size: 0 },
    };
    assert!(matches!(blob.retrieve_data(&store), Err(BlobError::StoreError(_))));
}

#[test]
fn manifest_encoding_round_trips() {
    let m = BlobManifest {
        parts: vec![BlobId(vec![7u8; 32]), BlobId((0u8..32).collect())],
        chunk_size: 12345,
    };
    let bytes = encode_manifest(&m);
    let back = decode_manifest(&bytes).unwrap();
    assert_eq!(back.chunk_size, 12345);
    assert_eq!(back.parts.len(), 2);
    assert_eq!(back.parts[0], m.parts[0]);
    assert_eq!(back.parts[1], m.parts[1]);
}

#[test]
fn garbage_manifest_is_rejected() {
    assert!(decode_manifest(b"not a manifest").is_none());
    assert!(decode_manifest(&[]).is_none());
}
