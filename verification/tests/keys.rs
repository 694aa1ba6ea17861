use ceridwen::keys::bytes_of;
use ceridwen::keys::id_bytes;
use ceridwen::keys::id_of_bytes;
use ceridwen::keys::posting_key_bytes;
use ceridwen::keys::posting_prefix_bytes;
use ceridwen::keys::read_frames;
use ceridwen::keys::WORD_KEY_SEPARATOR;

#[test]
fn ids_are_written_big_endian() {
    assert_eq!(id_bytes(0), vec![0, 0, 0, 0, 0, 0, 0, 0]);
    assert_eq!(id_bytes(1), vec![0, 0, 0, 0, 0, 0, 0, 1]);
    assert_eq!(id_bytes(0x0102030405060708), vec![1, 2, 3, 4, 5, 6, 7, 8]);
    assert_eq!(id_bytes(u64::MAX), vec![255; 8]);
}

#[test]
fn ids_are_read_back() {
    for id in [0u64, 1, 255, 256, 0x0102030405060708, u64::MAX - 1, u64::MAX] {
        assert_eq!(id_of_bytes(&id_bytes(id)), Some(id));
        assert_eq!(id_of_bytes(&id.to_be_bytes()), Some(id));
    }
}

#[test]
fn ids_have_eight_bytes() {
    assert_eq!(id_of_bytes(&[]), None);
    assert_eq!(id_of_bytes(&[1, 2, 3, 4, 5, 6, 7]), None);
    assert_eq!(id_of_bytes(&[1, 2, 3, 4, 5, 6, 7, 8, 9]), None);
}

#[test]
fn posting_keys_are_term_separator_id() {
    assert_eq!(WORD_KEY_SEPARATOR, b'=');
    assert_eq!(posting_prefix_bytes("cat"), b"cat=".to_vec());
    assert_eq!(posting_key_bytes("cat", 258), b"cat=\x00\x00\x00\x00\x00\x00\x01\x02".to_vec());
    assert_eq!(posting_prefix_bytes(""), b"=".to_vec());
}

#[test]
fn texts_are_written_in_utf8() {
    assert_eq!(bytes_of("é"), vec![0xc3, 0xa9]);
    assert_eq!(bytes_of(""), Vec::<u8>::new());
}

#[test]
fn frames_are_read_one_after_the_other() {
    let mut bytes = Vec::new();
    bytes.extend_from_slice(&3u64.to_be_bytes());
    bytes.extend_from_slice(b"cat");
    bytes.extend_from_slice(&0u64.to_be_bytes());
    bytes.extend_from_slice(&2u64.to_be_bytes());
    bytes.extend_from_slice(b"ox");
    assert_eq!(read_frames(&bytes), Some(vec![b"cat".to_vec(), Vec::new(), b"ox".to_vec()]));
    assert_eq!(read_frames(&Vec::new()), Some(Vec::new()));
}

#[test]
fn frames_that_are_cut_short_are_none() {
    assert_eq!(read_frames(&vec![0, 0, 0]), None);
    let mut bytes = Vec::new();
    bytes.extend_from_slice(&4u64.to_be_bytes());
    bytes.extend_from_slice(b"cat");
    assert_eq!(read_frames(&bytes), None);
    let mut bytes = Vec::new();
    bytes.extend_from_slice(&u64::MAX.to_be_bytes());
    assert_eq!(read_frames(&bytes), None);
}
