//! The object service: Put, Get and Delete over the store, plus the
//! identifier allocator they share.

use vstd::prelude::*;
use crate::codec::{
    chunk_views, join_chunks, joined, sorted_by_index, sort_chunks, split_bytes, split_chunks,
    views_of,
};
use crate::ids::{
    all_alphanumeric, mint_delete_key, random_id_candidate, DELETE_KEY_LENGTH, ID_LENGTH,
};
use crate::naming::{extension_of, file_extension_of, id_of_path, strip_path_id};
use crate::objects::{ChunkView, HeaderDoc, ServiceError};
use crate::store::{
    chunks_for, chunks_without, has_header, header_for, headers_without, Store,
};

verus! {

/// The chunking ceiling: comfortably below a typical 16 MiB single-document
/// limit, leaving headroom for the record around the bytes.
pub const MAX_CHUNK_SIZE: usize = 15728640;

/// How many random candidates the allocator probes before giving up.
pub const ALLOCATION_ATTEMPTS: usize = 100;

/// Some stored header's id has the shape the allocator draws — [`ID_LENGTH`]
/// alphanumeric characters. Only such an id can collide with a candidate: a
/// store without one (the empty store above all) cannot refuse an allocation.
pub open spec fn has_id_shaped_header(hs: Seq<crate::objects::HeaderView>) -> bool {
    exists|i: int|
        0 <= i < hs.len() && (#[trigger] hs[i].id).len() == ID_LENGTH as int && all_alphanumeric(
            hs[i].id,
        )
}

/// Allocates an object id: draws short random alphanumeric candidates and
/// probes the header store until one is unused. The probe-then-insert pair is
/// not atomic, so a racing allocator may still collide; and rather than
/// probing forever the retry is bounded, `None` reporting exhaustion — which
/// a drawn candidate can only suffer on a store that already holds an id of
/// the allocator's own shape.
pub fn allocate_id(store: &Store) -> (r: Option<String>)
    requires
        store.wf(),
    ensures
        r matches Some(id) ==> id@.len() == ID_LENGTH as int && all_alphanumeric(id@)
            && !has_header(store@.headers, id@),
        !has_id_shaped_header(store@.headers) ==> r is Some,
{
    let mut attempts: usize = 0;
    while attempts < ALLOCATION_ATTEMPTS
        invariant
            store.wf(),
            attempts > 0 ==> has_id_shaped_header(store@.headers),
        decreases ALLOCATION_ATTEMPTS - attempts,
    {
        let candidate = random_id_candidate();
        if store.count_headers(&candidate) == 0 {
            return Some(candidate);
        }
        proof {
            // the candidate collided, so a stored header carries an id of
            // the drawn shape
            let hs = store@.headers;
            let w = choose|w: int| 0 <= w < hs.len() && hs[w].id == candidate@;
            assert(hs[w].id.len() == ID_LENGTH as int && all_alphanumeric(hs[w].id));
            assert(has_id_shaped_header(hs));
        }
        attempts += 1;
    }
    None
}

/// Put: authorize, allocate an id, mint a delete key, derive the extension,
/// split the payload, then persist the header followed by its chunks.
///
/// An upload whose credential mismatches the secret is turned away before the
/// allocator, the chunker or the store does any work. On success the returned
/// header — the one persisted — is the caller's only sight of the delete key.
pub fn put(
    store: &mut Store,
    payload: &Vec<u8>,
    filename: &str,
    content_type: String,
    auth: &String,
    secret: &String,
    uploaded_at: u64,
    max_chunk_size: usize,
) -> (r: Result<HeaderDoc, ServiceError>)
    requires
        old(store).wf(),
        max_chunk_size >= 1,
        payload@.len() <= u32::MAX,
        split_bytes(payload@, max_chunk_size as int).len() <= i32::MAX,
    ensures
        final(store).wf(),
        auth@ != secret@ ==> r == Err::<HeaderDoc, ServiceError>(ServiceError::Unauthorized),
        auth@ == secret@ && r is Err ==> r == Err::<HeaderDoc, ServiceError>(
            ServiceError::IdSpaceExhausted,
        ),
        auth@ == secret@ && !has_id_shaped_header(old(store)@.headers) ==> r is Ok,
        r is Err ==> final(store)@ == old(store)@,
        r matches Ok(h) ==> auth@ == secret@ && h@.id.len() == ID_LENGTH as int
            && all_alphanumeric(h@.id) && !has_header(old(store)@.headers, h@.id)
            && h@.delete_key.len() == DELETE_KEY_LENGTH as int && all_alphanumeric(h@.delete_key)
            && h@.content_type == content_type@ && h@.file_extension == extension_of(filename@)
            && h@.content_length == payload@.len() && h@.uploaded_at == uploaded_at
            && h@.total_chunks == split_bytes(payload@, max_chunk_size as int).len()
            && final(store)@.headers == old(store)@.headers.push(h@)
            && final(store)@.chunks == old(store)@.chunks + chunk_views(
            split_bytes(payload@, max_chunk_size as int),
            h@.id,
        ),
{
    if !(*auth == *secret) {
        return Err(ServiceError::Unauthorized);
    }
    let id = match allocate_id(&*store) {
        None => return Err(ServiceError::IdSpaceExhausted),
        Some(id) => id,
    };
    let delete_key = mint_delete_key();
    let header = store_object(
        store,
        id,
        delete_key,
        payload,
        filename,
        content_type,
        uploaded_at,
        max_chunk_size,
    );
    Ok(header)
}

/// Persists one object under an already-allocated id and a minted delete
/// key: derives the extension, splits the payload, writes the header and
/// then its chunks, and returns the stored header. With the id fixed and
/// unused, this succeeds on every payload the record fields can describe.
pub fn store_object(
    store: &mut Store,
    id: String,
    delete_key: String,
    payload: &Vec<u8>,
    filename: &str,
    content_type: String,
    uploaded_at: u64,
    max_chunk_size: usize,
) -> (h: HeaderDoc)
    requires
        old(store).wf(),
        !has_header(old(store)@.headers, id@),
        max_chunk_size >= 1,
        payload@.len() <= u32::MAX,
        split_bytes(payload@, max_chunk_size as int).len() <= i32::MAX,
    ensures
        final(store).wf(),
        h@.id == id@,
        h@.delete_key == delete_key@,
        h@.content_type == content_type@,
        h@.file_extension == extension_of(filename@),
        h@.content_length == payload@.len(),
        h@.uploaded_at == uploaded_at,
        h@.total_chunks == split_bytes(payload@, max_chunk_size as int).len(),
        final(store)@.headers == old(store)@.headers.push(h@),
        final(store)@.chunks == old(store)@.chunks + chunk_views(
            split_bytes(payload@, max_chunk_size as int),
            id@,
        ),
{
    let file_extension = file_extension_of(filename);
    let chunks = split_chunks(id.as_str(), payload, max_chunk_size);
    proof {
        assert(views_of(chunks@).len() == chunks@.len());
        assert(chunks@.len() <= i32::MAX);
    }
    let total_chunks: u32 = chunks.len() as u32;
    let content_length: u32 = payload.len() as u32;
    let header = HeaderDoc::new(
        id,
        delete_key,
        content_type,
        file_extension,
        content_length,
        uploaded_at,
        total_chunks,
    );
    store.insert_header(header.clone());
    store.insert_chunks(chunks);
    header
}

/// Get: strip any cosmetic extension off the path, look the header up, fetch
/// the object's chunks, sort them by index and join them.
///
/// An unknown id is not-found; a header whose chunk set comes back empty is
/// the distinct server-side failure, since an object legitimately without
/// chunks cannot be told apart from a failed chunk lookup.
pub fn get(store: &Store, path: &str) -> (r: Result<(Vec<u8>, String), ServiceError>)
    requires
        store.wf(),
    ensures
        ({
            let id = id_of_path(path@);
            let cs = chunks_for(store@.chunks, id);
            &&& !has_header(store@.headers, id) ==> r == Err::<(Vec<u8>, String), ServiceError>(
                ServiceError::NotFound,
            )
            &&& has_header(store@.headers, id) && cs.len() == 0 ==> r == Err::<
                (Vec<u8>, String),
                ServiceError,
            >(ServiceError::NoChunksFound)
            &&& has_header(store@.headers, id) && cs.len() > 0 ==> (r matches Ok(pair)
                && pair.1@ == header_for(store@.headers, id).content_type && (exists|
                t: Seq<ChunkView>,
            |
                sorted_by_index(t) && t.to_multiset() == cs.to_multiset() && pair.0@ == joined(
                    t,
                )))
        }),
{
    let id = strip_path_id(path);
    let content_type = match store.find_header(&id) {
        None => return Err(ServiceError::NotFound),
        Some(header) => header.content_type.clone(),
    };
    let mut chunks = store.find_chunks(&id);
    if chunks.len() == 0 {
        return Err(ServiceError::NoChunksFound);
    }
    sort_chunks(&mut chunks);
    let bytes = join_chunks(&chunks);
    proof {
        let cs = chunks_for(store@.chunks, id_of_path(path@));
        let w = views_of(chunks@);
        assert(sorted_by_index(w) && w.to_multiset() == cs.to_multiset() && bytes@ == joined(w));
    }
    Ok((bytes, content_type))
}

/// After an upload into a store holding nothing of the new id, the object's
/// chunk set is exactly the records the codec made for the payload: what a
/// later retrieval sorts and — by the codec's round-trip law — joins back
/// into the payload, whatever order the store hands the records out in.
pub proof fn lemma_fresh_upload_chunks(
    old_chunks: Seq<ChunkView>,
    p: Seq<u8>,
    c: int,
    id: Seq<char>,
)
    requires
        c >= 1,
        split_bytes(p, c).len() <= i32::MAX,
        chunks_for(old_chunks, id) == Seq::<ChunkView>::empty(),
    ensures
        chunks_for(old_chunks + chunk_views(split_bytes(p, c), id), id) == chunk_views(
            split_bytes(p, c),
            id,
        ),
{
    let fresh = chunk_views(split_bytes(p, c), id);
    assert(forall|k: int| 0 <= k < fresh.len() ==> (#[trigger] fresh[k]).parent_id == id);
    crate::store::lemma_chunks_for_all_match(fresh, id);
    crate::store::lemma_chunks_for_concat(old_chunks, fresh, id);
    assert(chunks_for(old_chunks + fresh, id) =~= fresh);
}

/// A freshly allocated id survives path stripping whole: its alphabet holds
/// no dot, so retrieval by `"{id}"` and by `"{id}.ext"` looks up the same id.
pub proof fn lemma_allocated_id_in_path(id: Seq<char>, suffix: Seq<char>)
    requires
        all_alphanumeric(id),
        suffix.len() > 0 ==> suffix[0] == '.',
    ensures
        id_of_path(id + suffix) == id,
        id_of_path(id) == id,
{
    crate::ids::lemma_alphanumeric_has_no_dot(id);
    crate::naming::lemma_path_extension_ignored(id, suffix);
}

/// Delete: look the header up, check the supplied key against the stored
/// one, then remove the header and all the object's chunks, in that order.
///
/// The id must be known and the key must match exactly; a mismatch leaves
/// the store untouched. Removal counts are not surfaced.
pub fn delete(store: &mut Store, id: &String, delete_key: &String) -> (r: Result<
    (),
    ServiceError,
>)
    requires
        old(store).wf(),
    ensures
        final(store).wf(),
        !has_header(old(store)@.headers, id@) ==> r == Err::<(), ServiceError>(
            ServiceError::NotFound,
        ) && final(store)@ == old(store)@,
        has_header(old(store)@.headers, id@) && header_for(old(store)@.headers, id@).delete_key
            != delete_key@ ==> r == Err::<(), ServiceError>(ServiceError::InvalidDeleteKey)
            && final(store)@ == old(store)@,
        has_header(old(store)@.headers, id@) && header_for(old(store)@.headers, id@).delete_key
            == delete_key@ ==> r == Ok::<(), ServiceError>(()) && final(store)@.headers
            == headers_without(old(store)@.headers, id@) && final(store)@.chunks
            == chunks_without(old(store)@.chunks, id@),
{
    let key_matches = match store.find_header(id) {
        None => return Err(ServiceError::NotFound),
        Some(header) => header.delete_key == *delete_key,
    };
    if !key_matches {
        return Err(ServiceError::InvalidDeleteKey);
    }
    store.delete_header(id);
    store.delete_chunks(id);
    Ok(())
}

} // verus!


