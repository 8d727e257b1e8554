//! Content-addressed blobs: ids, manifests, and the storage capability.
//!
//! A payload is stored under the digest of its exact bytes. Payloads above
//! the chunk threshold are split into fixed-size chunks plus a manifest blob
//! that lists the chunk ids in order; the manifest is itself stored under the
//! digest of its canonical encoding.

use vstd::prelude::*;

use crate::assoc::{bkv_get, bkv_map};
use crate::codec::{
    concat_bytes, decode_manifest, encode_manifest, manifest_dec, manifest_enc,
};

verus! {

/// Payloads above this many bytes are split into chunks of exactly this size
/// (plus a final remainder chunk).
pub const CHUNK_SIZE: usize = 32 * 1024 * 1024;

/// The digest an input hashes to. Named, not stated: the digest function is
/// an outside algorithm; the library only relies on it being a pure function
/// of the input bytes.
pub uninterp spec fn blake3_digest(data: Seq<u8>) -> Seq<u8>;

/// Relies on `blake3::hash`: the digest depends on the input bytes alone and
/// is 32 bytes long (the crate's documented output length).
#[verifier::external_body]
pub(crate) fn blake3_hash_bytes(data: &[u8]) -> (r: Vec<u8>)
    ensures
        r@ == blake3_digest(data@),
        r@.len() == 32,
{
    blake3::hash(data).as_bytes().to_vec()
}

/// A cryptographic content digest of the exact bytes stored under it.
#[derive(Debug)]
pub struct BlobId(pub Vec<u8>);

impl View for BlobId {
    type V = Seq<u8>;

    open spec fn view(&self) -> Seq<u8> {
        self.0@
    }
}

impl DeepView for BlobId {
    type V = Seq<u8>;

    open spec fn deep_view(&self) -> Seq<u8> {
        self@
    }
}

impl Clone for BlobId {
    fn clone(&self) -> (r: Self)
        ensures
            r@ == self@,
    {
        BlobId(vstd::slice::slice_to_vec(self.0.as_slice()))
    }
}

impl PartialEq for BlobId {
    fn eq(&self, other: &Self) -> (r: bool) {
        let r = self.0 == other.0;
        proof {
            if r {
                assert(self.0@ =~= other.0@);
            }
        }
        r
    }
}

impl vstd::std_specs::cmp::PartialEqSpecImpl for BlobId {
    open spec fn obeys_eq_spec() -> bool {
        true
    }

    open spec fn eq_spec(&self, other: &Self) -> bool {
        self@ == other@
    }
}

/// Metadata carried beside a blob reference: the payload's total byte length.
#[derive(Clone, Copy, Debug, PartialEq, Eq, Structural)]
pub struct DataBlobMetadata {
    pub original_size: u64,
}

/// Lists the ordered chunk ids a large payload was split into, and the fixed
/// chunk size that was used.
#[derive(Debug)]
pub struct BlobManifest {
    pub parts: Vec<BlobId>,
    pub chunk_size: u32,
}

/// The mathematical content of a [`BlobManifest`].
pub struct BlobManifestView {
    pub parts: Seq<Seq<u8>>,
    pub chunk_size: u32,
}

impl View for BlobManifest {
    type V = BlobManifestView;

    open spec fn view(&self) -> BlobManifestView {
        BlobManifestView { parts: self.parts.deep_view(), chunk_size: self.chunk_size }
    }
}

/// A verifiable reference to stored payload bytes: either one blob, or a
/// manifest blob describing the chunks of an oversized payload.
#[derive(Debug)]
pub enum DataBlob {
    Single { blob: BlobId, metadata: DataBlobMetadata },
    Chunked { manifest: BlobId, metadata: DataBlobMetadata },
}

/// The mathematical content of a [`DataBlob`].
pub enum DataBlobView {
    Single { blob: Seq<u8>, size: u64 },
    Chunked { manifest: Seq<u8>, size: u64 },
}

impl View for DataBlob {
    type V = DataBlobView;

    open spec fn view(&self) -> DataBlobView {
        match self {
            DataBlob::Single { blob, metadata } => DataBlobView::Single {
                blob: blob@,
                size: metadata.original_size,
            },
            DataBlob::Chunked { manifest, metadata } => DataBlobView::Chunked {
                manifest: manifest@,
                size: metadata.original_size,
            },
        }
    }
}

impl Clone for DataBlob {
    fn clone(&self) -> (r: Self)
        ensures
            r@ == self@,
    {
        match self {
            DataBlob::Single { blob, metadata } => DataBlob::Single {
                blob: blob.clone(),
                metadata: *metadata,
            },
            DataBlob::Chunked { manifest, metadata } => DataBlob::Chunked {
                manifest: manifest.clone(),
                metadata: *metadata,
            },
        }
    }
}

/// Failures of the blob layer.
#[derive(Debug)]
pub enum BlobError {
    /// The backend has no object for the id.
    NotFound,
    /// Downloaded bytes do not hash to the requested id (at blob, chunk, or
    /// manifest granularity), or a manifest blob does not decode.
    IntegrityCheckFailed,
    /// A backend-specific failure, with its detail preserved.
    StoreError(String),
}

/// The capability the blob layer stores bytes through. Implementations are
/// injected by the caller; download results are treated as untrusted and are
/// integrity-checked against the requested id.
pub trait BlobStore {
    type Error;

    /// The bytes the backend currently associates with each content id.
    /// A backend that tracks its contents overrides this; left alone, the
    /// model is an unspecified map and the library promises nothing about
    /// what uploads make of it.
    open spec fn contents(&self) -> Map<Seq<u8>, Seq<u8>> {
        vstd::pervasive::arbitrary()
    }

    /// Stores `data` under `blob_id`. On success the backend maps `blob_id`
    /// to exactly `data`.
    fn upload(&mut self, blob_id: &BlobId, data: &[u8]) -> (r: Result<(), Self::Error>)
        ensures
            r is Ok ==> final(self).contents() == old(self).contents().insert(blob_id@, data@),
    ;

    /// Fetches the bytes stored under `blob_id`. The result carries no
    /// promise: a faulty backend may return anything, so callers verify the
    /// digest of whatever comes back.
    fn download(&self, blob_id: &BlobId) -> Result<Vec<u8>, Self::Error>;
}

/// Failure of the in-memory backend: the requested id holds no bytes.
#[derive(Clone, Copy, Debug, PartialEq, Eq, Structural)]
pub enum MemoryStoreError {
    Missing,
}

/// An in-memory blob backend, suitable for tests and embedding.
pub struct MemoryBlobStore {
    entries: Vec<(Vec<u8>, Vec<u8>)>,
}

impl MemoryBlobStore {
    /// Creates an empty backend.
    pub fn new() -> (r: MemoryBlobStore)
        ensures
            r.contents() == Map::<Seq<u8>, Seq<u8>>::empty(),
    {
        MemoryBlobStore { entries: Vec::new() }
    }
}

impl BlobStore for MemoryBlobStore {
    type Error = MemoryStoreError;

    closed spec fn contents(&self) -> Map<Seq<u8>, Seq<u8>> {
        bkv_map(self.entries@)
    }

    fn upload(&mut self, blob_id: &BlobId, data: &[u8]) -> (r: Result<(), Self::Error>)
        ensures
            r is Ok,
    {
        let key = vstd::slice::slice_to_vec(blob_id.0.as_slice());
        let val = vstd::slice::slice_to_vec(data);
        self.entries.push((key, val));
        proof {
            assert(self.entries@.drop_last() =~= old(self).entries@);
        }
        Ok(())
    }

    fn download(&self, blob_id: &BlobId) -> (r: Result<Vec<u8>, Self::Error>)
        ensures
            match r {
                Ok(d) => self.contents().contains_key(blob_id@) && d@ == self.contents()[
                    blob_id@],
                Err(_) => !self.contents().contains_key(blob_id@),
            },
    {
        match bkv_get(&self.entries, &blob_id.0) {
            Some(v) => Ok(vstd::slice::slice_to_vec(v.as_slice())),
            None => Err(MemoryStoreError::Missing),
        }
    }
}

/// Relies on `format!` with `core::fmt::Debug`: renders a backend error as
/// diagnostic text; nothing is claimed of the text.
#[verifier::external_body]
fn debug_string<E: core::fmt::Debug>(e: &E) -> String {
    format!("{:?}", e)
}

/// How many chunks an oversized payload splits into: one full chunk per
/// `CHUNK_SIZE` bytes, plus one for a non-empty remainder.
pub open spec fn num_chunks(len: nat) -> nat {
    if len % (CHUNK_SIZE as nat) == 0 {
        len / (CHUNK_SIZE as nat)
    } else {
        len / (CHUNK_SIZE as nat) + 1
    }
}

/// The `i`th chunk of a payload: `CHUNK_SIZE` bytes, except that the final
/// chunk carries whatever remains.
pub open spec fn chunk_of(data: Seq<u8>, i: int) -> Seq<u8> {
    let c = CHUNK_SIZE as int;
    data.subrange(c * i, if c * (i + 1) <= data.len() {
        c * (i + 1)
    } else {
        data.len() as int
    })
}

/// The manifest a payload deterministically splits into.
pub open spec fn manifest_for(data: Seq<u8>) -> BlobManifestView {
    BlobManifestView {
        parts: Seq::new(num_chunks(data.len()), |i: int| blake3_digest(chunk_of(data, i))),
        chunk_size: CHUNK_SIZE as u32,
    }
}

/// The backend contents after the first `i` chunks of `data` are stored
/// under their digests.
pub open spec fn chunks_stored(pre: Map<Seq<u8>, Seq<u8>>, data: Seq<u8>, i: nat) -> Map<
    Seq<u8>,
    Seq<u8>,
>
    decreases i,
{
    if i == 0 {
        pre
    } else {
        chunks_stored(pre, data, (i - 1) as nat).insert(
            blake3_digest(chunk_of(data, i - 1)),
            chunk_of(data, i - 1),
        )
    }
}

/// The backend contents after a whole oversized payload is stored: every
/// chunk under its digest, then the encoded manifest under its digest.
pub open spec fn chunked_stored(pre: Map<Seq<u8>, Seq<u8>>, data: Seq<u8>) -> Map<
    Seq<u8>,
    Seq<u8>,
> {
    chunks_stored(pre, data, num_chunks(data.len())).insert(
        blake3_digest(manifest_enc(manifest_for(data))),
        manifest_enc(manifest_for(data)),
    )
}

/// `bytes` authenticates against the chunk list of manifest `m`: it is the
/// in-order concatenation of pieces whose digests are exactly `m.parts`.
pub open spec fn pieces_match(m: BlobManifestView, pieces: Seq<Seq<u8>>, bytes: Seq<u8>) -> bool {
    &&& pieces.len() == m.parts.len()
    &&& forall|i: int| 0 <= i < pieces.len() ==> blake3_digest(#[trigger] pieces[i]) == m.parts[i]
    &&& bytes == concat_bytes(pieces)
}

/// `bytes` authenticates against the blob reference `b`: for a single blob
/// its digest is the referenced id; for a chunked blob some byte string
/// hashing to the manifest id decodes to a manifest whose chunk digests
/// produce `bytes` in order.
pub open spec fn blob_content_ok(b: DataBlobView, bytes: Seq<u8>) -> bool {
    match b {
        DataBlobView::Single { blob, .. } => blake3_digest(bytes) == blob,
        DataBlobView::Chunked { manifest, .. } => exists|md: Seq<u8>, pieces: Seq<Seq<u8>>|
            {
                &&& blake3_digest(md) == manifest
                &&& manifest_dec(md) is Some
                &&& #[trigger] pieces_match(manifest_dec(md)->0, pieces, bytes)
            },
    }
}

/// Idempotence law of content addressing: storing the same bytes under the
/// same id twice leaves the backend contents exactly as one upload does, so
/// callers may always retry a whole store operation.
pub proof fn lemma_upload_idempotent(contents: Map<Seq<u8>, Seq<u8>>, id: Seq<u8>, data: Seq<u8>)
    ensures
        contents.insert(id, data).insert(id, data) == contents.insert(id, data),
{
    assert(contents.insert(id, data).insert(id, data) =~= contents.insert(id, data));
}

/// Recomputes the digest of downloaded bytes and compares it to the id they
/// were requested under.
pub fn verify_bytes(expected: &BlobId, bytes: &Vec<u8>) -> (r: bool)
    ensures
        r == (blake3_digest(bytes@) == expected@),
{
    let digest = blake3_hash_bytes(bytes.as_slice());
    let r = digest == expected.0;
    proof {
        if r {
            assert(digest@ =~= expected@);
        }
    }
    r
}

impl DataBlob {
    /// Stores `data` content-addressed. A payload of at most [`CHUNK_SIZE`]
    /// bytes is uploaded whole under its digest; a larger one is split into
    /// consecutive `CHUNK_SIZE` chunks plus a remainder, each uploaded under
    /// its own digest, followed by the canonical manifest under its digest.
    /// Upload failures surface as `StoreError`; re-running the call uploads
    /// identical content under identical ids.
    pub fn from_data<S: BlobStore>(store: &mut S, data: &[u8]) -> (r: Result<DataBlob, BlobError>)
        where <S as BlobStore>::Error: core::fmt::Debug
        ensures
            match r {
                Ok(b) => {
                    &&& data@.len() <= CHUNK_SIZE ==> {
                        &&& b@ == (DataBlobView::Single {
                            blob: blake3_digest(data@),
                            size: data@.len() as u64,
                        })
                        &&& final(store).contents() == old(store).contents().insert(
                            blake3_digest(data@),
                            data@,
                        )
                    }
                    &&& data@.len() > CHUNK_SIZE ==> {
                        &&& b@ == (DataBlobView::Chunked {
                            manifest: blake3_digest(manifest_enc(manifest_for(data@))),
                            size: data@.len() as u64,
                        })
                        &&& final(store).contents() == chunked_stored(
                            old(store).contents(),
                            data@,
                        )
                    }
                },
                Err(e) => e is StoreError,
            },
    {
        let size = data.len();

        if size > CHUNK_SIZE {
            let ghost c = CHUNK_SIZE as int;
            let ghost n = num_chunks(data@.len());
            let mut chunk_ids: Vec<BlobId> = Vec::new();
            let mut off: usize = 0;
            proof {
                vstd::arithmetic::div_mod::lemma_fundamental_div_mod(size as int, c);
                vstd::arithmetic::div_mod::lemma_mod_bound(size as int, c);
            }
            while off < size
                invariant
                    size == data@.len() <= usize::MAX,
                    CHUNK_SIZE < size,
                    c == CHUNK_SIZE as int,
                    n == num_chunks(data@.len()),
                    chunk_ids@.len() <= n,
                    off == if chunk_ids@.len() < n {
                        (CHUNK_SIZE as int) * chunk_ids@.len()
                    } else {
                        size as int
                    },
                    off <= size,
                    (off < size) == (chunk_ids@.len() < n),
                    forall|j: int|
                        0 <= j < chunk_ids@.len() ==> (#[trigger] chunk_ids@[j])@ == blake3_digest(
                            chunk_of(data@, j),
                        ) && chunk_ids@[j]@.len() == 32,
                    store.contents() == chunks_stored(
                        old(store).contents(),
                        data@,
                        chunk_ids@.len(),
                    ),
                decreases size - off,
            {
                let ghost i = chunk_ids@.len() as int;
                let end = if size - off > CHUNK_SIZE {
                    off + CHUNK_SIZE
                } else {
                    size
                };
                proof {
                    assert(i < n);
                    assert(off == c * i);
                    assert(end as int == if c * (i + 1) <= size {
                        c * (i + 1)
                    } else {
                        size as int
                    }) by (nonlinear_arith)
                        requires
                            off == c * i,
                            c == CHUNK_SIZE as int,
                            end as int == if size - off > CHUNK_SIZE {
                                off + c
                            } else {
                                size as int
                            },
                            off < size,
                    ;
                }
                let chunk = vstd::slice::slice_subrange(data, off, end);
                proof {
                    assert(chunk@ =~= chunk_of(data@, i));
                }
                let digest = blake3_hash_bytes(chunk);
                let blob_id = BlobId(digest);
                match store.upload(&blob_id, chunk) {
                    Ok(()) => (),
                    Err(e) => {
                        return Err(BlobError::StoreError(debug_string(&e)));
                    },
                }
                let ghost prev_ids = chunk_ids@;
                chunk_ids.push(blob_id);
                proof {
                    vstd::arithmetic::div_mod::lemma_fundamental_div_mod(size as int, c);
                    vstd::arithmetic::div_mod::lemma_mod_bound(size as int, c);
                    assert(chunk_ids@.drop_last() =~= prev_ids);
                    assert(n == if (size as int % c) == 0 {
                        size as int / c
                    } else {
                        size as int / c + 1
                    });
                    // whether the next chunk exists decides where `end` sits
                    if chunk_ids@.len() < n {
                        assert(end as int == c * (i + 1) && c * (i + 1) < size)
                            by (nonlinear_arith)
                            requires
                                end as int == if c * (i + 1) <= size {
                                    c * (i + 1)
                                } else {
                                    size as int
                                },
                                i + 1 < n,
                                n == if (size as int % c) == 0 {
                                    size as int / c
                                } else {
                                    size as int / c + 1
                                },
                                c > 0,
                                size == c * (size as int / c) + (size as int % c),
                                0 <= (size as int % c) < c,
                        ;
                    } else {
                        assert(end as int == size as int) by (nonlinear_arith)
                            requires
                                end as int == if c * (i + 1) <= size {
                                    c * (i + 1)
                                } else {
                                    size as int
                                },
                                i + 1 == n,
                                n == if (size as int % c) == 0 {
                                    size as int / c
                                } else {
                                    size as int / c + 1
                                },
                                c > 0,
                                size == c * (size as int / c) + (size as int % c),
                                0 <= (size as int % c) < c,
                        ;
                    }
                }
                off = end;
            }
            let manifest = BlobManifest { parts: chunk_ids, chunk_size: CHUNK_SIZE as u32 };
            proof {
                assert(manifest@.parts =~= manifest_for(data@).parts);
                assert(manifest@ == manifest_for(data@));
            }
            let manifest_data = encode_manifest(&manifest);
            let manifest_digest = blake3_hash_bytes(manifest_data.as_slice());
            let manifest_blob_id = BlobId(manifest_digest);
            match store.upload(&manifest_blob_id, manifest_data.as_slice()) {
                Ok(()) => (),
                Err(e) => {
                    return Err(BlobError::StoreError(debug_string(&e)));
                },
            }

            let metadata = DataBlobMetadata { original_size: size as u64 };
            return Ok(DataBlob::Chunked { manifest: manifest_blob_id, metadata });
        }

        let digest = blake3_hash_bytes(data);
        let blob_id = BlobId(digest);
        match store.upload(&blob_id, data) {
            Ok(()) => (),
            Err(e) => {
                return Err(BlobError::StoreError(debug_string(&e)));
            },
        }
        let metadata = DataBlobMetadata { original_size: size as u64 };
        Ok(DataBlob::Single { blob: blob_id, metadata })
    }

    /// Downloads and integrity-checks the referenced payload. Every byte
    /// string that comes back from the backend is re-hashed against the id
    /// it was requested under; on the first mismatch the whole retrieval
    /// aborts with an integrity error and no partial data.
    pub fn retrieve_data<S: BlobStore>(&self, store: &S) -> (r: Result<Vec<u8>, BlobError>)
        where <S as BlobStore>::Error: core::fmt::Debug
        ensures
            match r {
                Ok(bytes) => blob_content_ok(self@, bytes@),
                Err(e) => e is StoreError || e is IntegrityCheckFailed,
            },
    {
        match self {
            DataBlob::Single { blob, .. } => {
                let data = match store.download(blob) {
                    Ok(d) => d,
                    Err(e) => {
                        return Err(BlobError::StoreError(debug_string(&e)));
                    },
                };
                if !verify_bytes(blob, &data) {
                    return Err(BlobError::IntegrityCheckFailed);
                }
                Ok(data)
            },
            DataBlob::Chunked { manifest, .. } => {
                let manifest_data = match store.download(manifest) {
                    Ok(d) => d,
                    Err(e) => {
                        return Err(BlobError::StoreError(debug_string(&e)));
                    },
                };
                if !verify_bytes(manifest, &manifest_data) {
                    return Err(BlobError::IntegrityCheckFailed);
                }
                let m = match decode_manifest(manifest_data.as_slice()) {
                    Some(m) => m,
                    None => {
                        return Err(BlobError::IntegrityCheckFailed);
                    },
                };
                let ghost mv = m@;

                let mut result: Vec<u8> = Vec::new();
                let ghost mut pieces: Seq<Seq<u8>> = Seq::empty();
                let mut i: usize = 0;
                while i < m.parts.len()
                    invariant
                        0 <= i <= m.parts@.len(),
                        mv == m@,
                        pieces.len() == i,
                        forall|j: int|
                            0 <= j < i ==> blake3_digest(#[trigger] pieces[j]) == mv.parts[j],
                        result@ == concat_bytes(pieces),
                    decreases m.parts@.len() - i,
                {
                    let part_id = &m.parts[i];
                    let mut chunk_data = match store.download(part_id) {
                        Ok(d) => d,
                        Err(e) => {
                            return Err(BlobError::StoreError(debug_string(&e)));
                        },
                    };
                    if !verify_bytes(part_id, &chunk_data) {
                        return Err(BlobError::IntegrityCheckFailed);
                    }
                    proof {
                        let prev = pieces;
                        pieces = pieces.push(chunk_data@);
                        assert(pieces.drop_last() =~= prev);
                    }
                    result.append(&mut chunk_data);
                    proof {
                        assert(result@ =~= concat_bytes(pieces));
                    }
                    i = i + 1;
                }
                proof {
                    assert(manifest_dec(manifest_data@) == Some(mv));
                    assert(pieces_match(manifest_dec(manifest_data@)->0, pieces, result@));
                    assert(blob_content_ok(self@, result@));
                }
                Ok(result)
            },
        }
    }
}

} // verus!
