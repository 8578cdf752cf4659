use sharex_store::codec::split_chunks;
use sharex_store::ids::mint_delete_key;
use sharex_store::objects::{ChunkDoc, Error, HeaderDoc, ServiceError};
use sharex_store::service::{allocate_id, delete, get, put, store_object};
use sharex_store::store::Store;

fn secret() -> String {
    String::from("upload-secret")
}

fn upload(store: &mut Store, payload: &Vec<u8>, filename: &str, chunk_size: usize) -> HeaderDoc {
    put(
        store,
        payload,
        filename,
        String::from("image/png"),
        &secret(),
        &secret(),
        1_700_000_000_000,
        chunk_size,
    )
    .expect("authorized upload should succeed")
}

#[test]
fn upload_fills_header_and_chunks() {
    let mut store = Store::new();
    let payload: Vec<u8> = (0u8..40).collect();
    let header = upload(&mut store, &payload, "photo.PNG", 15);
    assert_eq!(header.content_length, 40);
    assert_eq!(header.total_chunks, 3);
    assert_eq!(header.content_type, "image/png");
    assert_eq!(header.file_extension, ".PNG");
    assert_eq!(header.uploaded_at, 1_700_000_000_000);
    assert_eq!(header.id.len(), 5);
    assert_eq!(header.delete_key.len(), 16);
    let chunks = store.find_chunks(&header.id);
    assert_eq!(chunks.len(), 3);
    let sizes: Vec<usize> = chunks.iter().map(|c| c.data.len()).collect();
    assert_eq!(sizes, vec![15, 15, 10]);
}

#[test]
fn get_reconstructs_uploaded_payload() {
    let mut store = Store::new();
    let payload: Vec<u8> = (0u8..40).collect();
    let header = upload(&mut store, &payload, "photo.PNG", 15);
    let (bytes, content_type) = get(&store, &header.id).expect("stored object should be served");
    assert_eq!(bytes, payload);
    assert_eq!(content_type, "image/png");
}

#[test]
fn get_reconstructs_even_from_reversed_store_order() {
    let mut store = Store::new();
    let payload: Vec<u8> = (0u8..40).collect();
    let mut chunks = split_chunks("abcde", &payload, 15);
    chunks.reverse();
    let header = HeaderDoc::new(
        String::from("abcde"),
        mint_delete_key(),
        String::from("image/png"),
        String::from(".png"),
        40,
        1,
        3,
    );
    store.insert_header(header);
    store.insert_chunks(chunks);
    let (bytes, _) = get(&store, "abcde").expect("stored object should be served");
    assert_eq!(bytes, payload);
}

#[test]
fn get_ignores_cosmetic_path_extension() {
    let mut store = Store::new();
    let payload: Vec<u8> = (0u8..40).collect();
    let header = upload(&mut store, &payload, "photo.PNG", 15);
    let plain = get(&store, &header.id).expect("bare id should be served");
    let dotted_path = format!("{}.png", header.id);
    let dotted = get(&store, &dotted_path).expect("id with extension should be served");
    assert_eq!(plain.0, dotted.0);
    assert_eq!(plain.1, dotted.1);
}

#[test]
fn get_unknown_id_is_not_found() {
    let store = Store::new();
    let r = get(&store, "nosuc");
    assert_eq!(r, Err(ServiceError::NotFound));
}

#[test]
fn get_header_without_chunks_is_a_server_error() {
    let mut store = Store::new();
    let payload: Vec<u8> = Vec::new();
    let header = upload(&mut store, &payload, "empty.bin", 15);
    assert_eq!(header.total_chunks, 0);
    assert_eq!(get(&store, &header.id), Err(ServiceError::NoChunksFound));
}

#[test]
fn unauthorized_upload_leaves_no_trace() {
    let mut store = Store::new();
    let payload: Vec<u8> = (0u8..40).collect();
    let r = put(
        &mut store,
        &payload,
        "photo.PNG",
        String::from("image/png"),
        &String::from("wrong"),
        &secret(),
        1,
        15,
    );
    assert!(matches!(r, Err(ServiceError::Unauthorized)));
    // nothing was allocated or written: a later upload starts from a clean store
    let header = upload(&mut store, &payload, "photo.PNG", 15);
    let chunks = store.find_chunks(&header.id);
    assert_eq!(chunks.len(), 3);
}

#[test]
fn delete_with_correct_key_removes_header_and_chunks() {
    let mut store = Store::new();
    let payload: Vec<u8> = (0u8..40).collect();
    let header = upload(&mut store, &payload, "photo.PNG", 15);
    let key = header.delete_key.clone();
    assert_eq!(delete(&mut store, &header.id, &key), Ok(()));
    assert_eq!(get(&store, &header.id), Err(ServiceError::NotFound));
    assert_eq!(store.find_chunks(&header.id).len(), 0);
    assert_eq!(store.count_headers(&header.id), 0);
}

#[test]
fn delete_with_wrong_key_changes_nothing() {
    let mut store = Store::new();
    let payload: Vec<u8> = (0u8..40).collect();
    let header = upload(&mut store, &payload, "photo.PNG", 15);
    let r = delete(&mut store, &header.id, &String::from("0000000000000000"));
    assert_eq!(r, Err(ServiceError::InvalidDeleteKey));
    assert_eq!(store.count_headers(&header.id), 1);
    assert_eq!(store.find_chunks(&header.id).len(), 3);
    let (bytes, _) = get(&store, &header.id).expect("object should still be served");
    assert_eq!(bytes, payload);
}

#[test]
fn delete_unknown_id_is_not_found() {
    let mut store = Store::new();
    let r = delete(&mut store, &String::from("nosuc"), &String::from("k"));
    assert_eq!(r, Err(ServiceError::NotFound));
}

#[test]
fn sequentially_allocated_ids_stay_unique() {
    let mut store = Store::new();
    let payload: Vec<u8> = vec![1, 2, 3];
    let mut ids: Vec<String> = Vec::new();
    for _ in 0..10 {
        let header = upload(&mut store, &payload, "a.bin", 2);
        ids.push(header.id);
    }
    for i in 0..ids.len() {
        for j in (i + 1)..ids.len() {
            assert_ne!(ids[i], ids[j]);
        }
    }
}

#[test]
fn allocated_id_is_short_alphanumeric_and_unused() {
    let store = Store::new();
    let id = allocate_id(&store).expect("an empty store has free ids");
    assert_eq!(id.len(), 5);
    assert!(id.chars().all(|c| c.is_ascii_alphanumeric()));
    assert_eq!(store.count_headers(&id), 0);
}

#[test]
fn minted_delete_keys_are_long_alphanumeric() {
    let key = mint_delete_key();
    assert_eq!(key.len(), 16);
    assert!(key.chars().all(|c| c.is_ascii_alphanumeric()));
}

#[test]
fn store_object_uses_the_given_id_and_key() {
    let mut store = Store::new();
    let payload: Vec<u8> = (0u8..20).collect();
    let header = store_object(
        &mut store,
        String::from("fixed"),
        String::from("key0key0key0key0"),
        &payload,
        "a.txt",
        String::from("text/plain"),
        7,
        8,
    );
    assert_eq!(header.id, "fixed");
    assert_eq!(header.delete_key, "key0key0key0key0");
    assert_eq!(header.total_chunks, 3);
    assert_eq!(header.uploaded_at, 7);
    let (bytes, content_type) = get(&store, "fixed").expect("stored object should be served");
    assert_eq!(bytes, payload);
    assert_eq!(content_type, "text/plain");
    let key = String::from("key0key0key0key0");
    assert_eq!(delete(&mut store, &String::from("fixed"), &key), Ok(()));
    assert_eq!(get(&store, "fixed"), Err(ServiceError::NotFound));
}

#[test]
fn error_codes_match_the_wire_shape() {
    assert_eq!(ServiceError::NotFound.code(), "not_found");
    assert_eq!(ServiceError::NoChunksFound.code(), "no_chunks_found");
    assert_eq!(ServiceError::InvalidDeleteKey.code(), "invalid_delete_key");
    assert_eq!(ServiceError::Unauthorized.code(), "unauthorized");
    let body: Error = ServiceError::NotFound.to_error();
    assert_eq!(body.code().as_str(), "not_found");
    let success_body = Error::new(String::new());
    assert_eq!(success_body.code().as_str(), "");
}

#[test]
fn record_constructors_keep_their_fields() {
    let h = HeaderDoc::new(
        String::from("abcde"),
        String::from("k123"),
        String::from("text/plain"),
        String::from(".txt"),
        9,
        77,
        1,
    );
    assert_eq!(h.id, "abcde");
    assert_eq!(h.delete_key, "k123");
    assert_eq!(h.content_type, "text/plain");
    assert_eq!(h.file_extension, ".txt");
    assert_eq!(h.content_length, 9);
    assert_eq!(h.uploaded_at, 77);
    assert_eq!(h.total_chunks, 1);
    let c = ChunkDoc::new(String::from("abcde"), 1, vec![1, 2, 3]);
    assert_eq!(c.parent_id, "abcde");
    assert_eq!(c.index, 1);
    assert_eq!(c.data, vec![1, 2, 3]);
}
