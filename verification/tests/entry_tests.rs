use bitcask::entry::Entry;
use bitcask::error::E;

#[test]
fn test_entry() {
    let k = "key".to_string();
    let v = vec![1, 2, 3];
    let entry = Entry::new(k.clone(), v.clone()).unwrap();
    assert_eq!(entry.k(), k.as_str());
    assert_eq!(entry.v(), &v);
    assert_eq!(entry.ksz(), 3);
    assert_eq!(entry.value_sz(), 3);
    assert_eq!(entry.crc(), Entry::calculate_crc_by_vec(&v));

    let tombstone = Entry::get_tombstone_with_given_key(k.clone()).unwrap();
    assert_eq!(tombstone.k(), k.as_str());
    assert_eq!(tombstone.v(), &Vec::<u8>::new());
    assert_eq!(tombstone.ksz(), 3);
    assert_eq!(tombstone.value_sz(), 0);
    assert_eq!(tombstone.crc(), Entry::calculate_crc_by_vec(&vec![]));
}

#[test]
fn test_encode_decode() {
    let k = "key".to_string();
    let v = vec![1, 2, 3];
    let entry = Entry::new(k.clone(), v.clone()).unwrap();
    let encoded = entry.encode();
    let decoded = Entry::decode(&encoded).unwrap();
    assert_eq!(decoded, entry);
}

#[test]
fn test_encode_decode_tombstone() {
    let tombstone = Entry::get_tombstone_with_given_key("key".to_string()).unwrap();
    let encoded = tombstone.encode();
    let decoded = Entry::decode(&encoded).unwrap();
    assert_eq!(decoded, tombstone);
    assert!(decoded.is_tombstone());
}

#[test]
fn test_is_tombstone() {
    let k = "key".to_string();
    let v = vec![1, 2, 3];
    let entry = Entry::new(k.clone(), v.clone()).unwrap();
    assert_eq!(entry.is_tombstone(), false);

    let tombstone = Entry::get_tombstone_with_given_key(k.clone()).unwrap();
    assert_eq!(tombstone.is_tombstone(), true);
}

#[test]
fn test_get_self_size() {
    // header: 4 (crc) + 8 (tstamp) + 8 (ksz) + 8 (vsz) = 28 bytes
    let k = "key".to_string();
    let v = vec![1, 2, 3];
    let entry = Entry::new(k.clone(), v.clone()).unwrap();
    assert_eq!(entry.get_self_size(), 34);
    assert_eq!(entry.encode().len(), 34);

    let tombstone = Entry::get_tombstone_with_given_key(k.clone()).unwrap();
    assert_eq!(tombstone.get_self_size(), 31);
    assert_eq!(tombstone.encode().len(), 31);
}

#[test]
fn test_crc_known_values() {
    // CRC-32/ISO-HDLC: the empty message checks to 0, and the catalog's
    // standard check input to 0xcbf43926.
    assert_eq!(Entry::calculate_crc_by_vec(&vec![]), 0);
    assert_eq!(
        Entry::calculate_crc_by_vec(&"123456789".as_bytes().to_vec()),
        0xcbf43926
    );
}

#[test]
fn test_constructor_rejections() {
    assert_eq!(Entry::new(String::new(), vec![1]).unwrap_err(), E::EmptyKey);
    assert_eq!(Entry::new("k".to_string(), vec![]).unwrap_err(), E::EmptyValue);
    assert_eq!(
        Entry::get_tombstone_with_given_key(String::new()).unwrap_err(),
        E::EmptyKey
    );
}

#[test]
fn test_decode_rejects_damage() {
    // far too short for a header
    assert!(Entry::decode(&vec![0u8; 10]).is_none());

    // a key that is not valid UTF-8
    let entry = Entry::new("key".to_string(), vec![1, 2, 3]).unwrap();
    let mut encoded = entry.encode();
    encoded[28] = 0xff;
    encoded[29] = 0xff;
    encoded[30] = 0xff;
    assert!(Entry::decode(&encoded).is_none());

    // a declared size that runs past the end of the buffer
    let mut truncated = entry.encode();
    truncated.pop();
    assert!(Entry::decode(&truncated).is_none());
}

#[test]
fn test_encoding_is_little_endian() {
    let entry = Entry::new("key".to_string(), vec![1, 2, 3]).unwrap();
    let encoded = entry.encode();
    // ksz = 3 at offset 12, vsz = 3 at offset 20, little-endian u64
    assert_eq!(&encoded[12..20], &[3, 0, 0, 0, 0, 0, 0, 0]);
    assert_eq!(&encoded[20..28], &[3, 0, 0, 0, 0, 0, 0, 0]);
    // key bytes then value bytes
    assert_eq!(&encoded[28..31], "key".as_bytes());
    assert_eq!(&encoded[31..34], &[1, 2, 3]);
}
