use stacks_marf::record::{decode_trie, encode_trie, push_field, read_field};
use stacks_marf::storage::SealedTrie;

fn sample() -> SealedTrie {
    SealedTrie {
        block_id: vec![0xb1, 0x0c],
        parent: Some(3),
        writes: vec![
            (b"alice".to_vec(), Some(vec![0, 0, 0, 100])),
            (b"bob".to_vec(), None),
        ],
    }
}

#[test]
fn record_layout_is_exact() {
    let bytes = encode_trie(&sample());
    let expected: Vec<u8> = vec![
        0, 0, 0, 2, 0xb1, 0x0c, // block id
        1, 0, 0, 0, 3, // parent position
        0, 0, 0, 2, // two writes
        0, 0, 0, 5, b'a', b'l', b'i', b'c', b'e', 1, 0, 0, 0, 4, 0, 0, 0, 100, // insert
        0, 0, 0, 3, b'b', b'o', b'b', 0, // delete
    ];
    assert_eq!(bytes, expected);
}

#[test]
fn record_reads_back_after_other_bytes() {
    let mut file = vec![9u8, 9, 9];
    file.extend(encode_trie(&sample()));
    let end = file.len();
    file.extend(vec![7u8, 7]);
    let (t, p) = decode_trie(&file, 3).unwrap();
    assert_eq!(p, end);
    assert_eq!(t.block_id, vec![0xb1, 0x0c]);
    assert_eq!(t.parent, Some(3));
    assert_eq!(t.writes.len(), 2);
    assert_eq!(t.writes[0].0, b"alice".to_vec());
    assert_eq!(t.writes[0].1, Some(vec![0, 0, 0, 100]));
    assert_eq!(t.writes[1].0, b"bob".to_vec());
    assert_eq!(t.writes[1].1, None);
}

#[test]
fn genesis_record_round_trips() {
    let g = SealedTrie { block_id: vec![], parent: None, writes: vec![] };
    let bytes = encode_trie(&g);
    assert_eq!(bytes, vec![0, 0, 0, 0, 0, 0, 0, 0, 0]);
    let (t, p) = decode_trie(&bytes, 0).unwrap();
    assert_eq!(p, 9);
    assert!(t.block_id.is_empty() && t.parent.is_none() && t.writes.is_empty());
}

#[test]
fn truncated_records_are_refused() {
    let bytes = encode_trie(&sample());
    for cut in 0..bytes.len() {
        assert!(decode_trie(&bytes[..cut].to_vec(), 0).is_none());
    }
    let mut bad_flag = bytes.clone();
    bad_flag[6] = 2;
    assert!(decode_trie(&bad_flag, 0).is_none());
}

#[test]
fn fields_are_length_prefixed() {
    let mut out = vec![];
    push_field(&mut out, &vec![5, 6, 7]);
    assert_eq!(out, vec![0, 0, 0, 3, 5, 6, 7]);
    assert_eq!(read_field(&out, 0), Some((vec![5, 6, 7], 7)));
    assert_eq!(read_field(&out, 1), None);
}
