use sharex_store::codec::{join_chunks, sort_chunks, split_chunks};
use sharex_store::naming::{file_extension_of, strip_path_id};
use sharex_store::objects::ChunkDoc;

#[test]
fn split_40_bytes_by_15_makes_3_chunks() {
    let payload: Vec<u8> = (0u8..40).collect();
    let chunks = split_chunks("abcde", &payload, 15);
    assert_eq!(chunks.len(), 3);
    assert_eq!(chunks[0].data.len(), 15);
    assert_eq!(chunks[1].data.len(), 15);
    assert_eq!(chunks[2].data.len(), 10);
    assert_eq!(chunks[0].index, 1);
    assert_eq!(chunks[1].index, 2);
    assert_eq!(chunks[2].index, 3);
    assert!(chunks.iter().all(|c| c.parent_id == "abcde"));
}

#[test]
fn split_empty_payload_makes_no_chunks() {
    let payload: Vec<u8> = Vec::new();
    let chunks = split_chunks("abcde", &payload, 15);
    assert_eq!(chunks.len(), 0);
}

#[test]
fn split_exact_multiple_has_no_short_tail() {
    let payload: Vec<u8> = (0u8..30).collect();
    let chunks = split_chunks("abcde", &payload, 15);
    assert_eq!(chunks.len(), 2);
    assert_eq!(chunks[0].data.len(), 15);
    assert_eq!(chunks[1].data.len(), 15);
}

#[test]
fn split_then_join_restores_payload() {
    let payload: Vec<u8> = (0u8..=255).cycle().take(1000).collect();
    let chunks = split_chunks("abcde", &payload, 7);
    let joined = join_chunks(&chunks);
    assert_eq!(joined, payload);
}

#[test]
fn sort_reorders_reversed_chunks_by_index() {
    let payload: Vec<u8> = (0u8..40).collect();
    let mut chunks = split_chunks("abcde", &payload, 15);
    chunks.reverse();
    sort_chunks(&mut chunks);
    assert_eq!(chunks[0].index, 1);
    assert_eq!(chunks[1].index, 2);
    assert_eq!(chunks[2].index, 3);
    let joined = join_chunks(&chunks);
    assert_eq!(joined, payload);
}

#[test]
fn join_concatenates_in_given_order() {
    let chunks = vec![
        ChunkDoc::new(String::from("x"), 1, vec![1, 2]),
        ChunkDoc::new(String::from("x"), 2, vec![3]),
        ChunkDoc::new(String::from("x"), 3, vec![4, 5, 6]),
    ];
    assert_eq!(join_chunks(&chunks), vec![1, 2, 3, 4, 5, 6]);
}

#[test]
fn extension_of_dotted_name_keeps_case() {
    assert_eq!(file_extension_of("photo.PNG"), ".PNG");
}

#[test]
fn extension_of_single_segment_is_empty() {
    assert_eq!(file_extension_of("noext"), "");
}

#[test]
fn extension_takes_only_the_last_segment() {
    assert_eq!(file_extension_of("archive.tar.gz"), ".gz");
    assert_eq!(file_extension_of("trailing."), ".");
    assert_eq!(file_extension_of(".bashrc"), ".bashrc");
    assert_eq!(file_extension_of(""), "");
}

#[test]
fn strip_path_id_cuts_at_first_dot() {
    assert_eq!(strip_path_id("abcde.png"), "abcde");
    assert_eq!(strip_path_id("abcde"), "abcde");
    assert_eq!(strip_path_id("abcde.tar.gz"), "abcde");
    assert_eq!(strip_path_id(".png"), "");
    assert_eq!(strip_path_id(""), "");
}
