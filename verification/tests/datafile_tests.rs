use bitcask::datafile::parse_data_file_name;
use bitcask::datafile::DataFile;
use bitcask::datafile::DataFileType;
use bitcask::entry::Entry;
use bitcask::error::E;
use bitcask::fio::MemIO;

#[test]
fn test_parse_data_file_name() {
    assert_eq!(parse_data_file_name("1.bck"), Some(1));
    assert_eq!(parse_data_file_name("123.bck"), Some(123));
    assert_eq!(parse_data_file_name("007.bck"), Some(7));
    assert_eq!(parse_data_file_name("4294967295.bck"), Some(u32::MAX));
    // too large for a 32-bit id
    assert_eq!(parse_data_file_name("4294967296.bck"), None);
    // not decimal digits
    assert_eq!(parse_data_file_name("a.bck"), None);
    assert_eq!(parse_data_file_name("12x.bck"), None);
    assert_eq!(parse_data_file_name("-1.bck"), None);
    // no digits at all
    assert_eq!(parse_data_file_name(".bck"), None);
    // wrong suffix
    assert_eq!(parse_data_file_name("1.data"), None);
    assert_eq!(parse_data_file_name("1"), None);
}

#[test]
fn test_append_tracks_offsets() {
    let mut file = DataFile::new(MemIO::new(), 1);
    assert_eq!(file.file_id(), 1);
    assert_eq!(file.next_write_begin_pos(), 0);
    let end = file.append(&vec![1, 2, 3]).unwrap();
    assert_eq!(end, 3);
    assert_eq!(file.next_write_begin_pos(), 3);
    let end = file.append(&vec![4, 5]).unwrap();
    assert_eq!(end, 5);
    assert_eq!(file.next_write_begin_pos(), 5);
    let bytes = file.read_with_given_pos(1, 3).unwrap();
    assert_eq!(bytes, vec![2, 3, 4]);
}

#[test]
fn test_sealed_segment_refuses_appends() {
    let mut file = DataFile::new(MemIO::new(), 1);
    file.append(&vec![1, 2, 3]).unwrap();
    file.set_filetype(DataFileType::OLD);
    assert_eq!(file.append(&vec![4]).unwrap_err(), E::CanNotWriteOldFile);
    // reads still work on a sealed segment
    assert_eq!(file.read_with_given_pos(0, 3).unwrap(), vec![1, 2, 3]);
}

#[test]
fn test_read_past_end_fails() {
    let mut file = DataFile::new(MemIO::new(), 1);
    file.append(&vec![1, 2, 3]).unwrap();
    assert_eq!(
        file.read_with_given_pos(2, 2).unwrap_err(),
        E::Failed2ReadFromDataFile
    );
}

#[test]
fn test_scan_recovers_entries_in_order() {
    let first = Entry::new("alpha".to_string(), vec![1]).unwrap();
    let second = Entry::get_tombstone_with_given_key("alpha".to_string()).unwrap();
    let third = Entry::new("beta".to_string(), vec![2, 3]).unwrap();
    let mut bytes = first.encode();
    bytes.append(&mut second.encode());
    bytes.append(&mut third.encode());
    let total = bytes.len();
    let file = DataFile::from_existing(MemIO::from_bytes(bytes), 7, DataFileType::OLD);
    let (list, end) = file.get_all_entries_with_metadata().unwrap();
    assert_eq!(end, total);
    assert_eq!(list.len(), 3);
    assert_eq!(list[0].entry, first);
    assert_eq!(list[1].entry, second);
    assert!(list[1].entry.is_tombstone());
    assert_eq!(list[2].entry, third);
    // locations: ascending starts, sizes matching the encodings
    assert_eq!(list[0].meta_data.file_id, 7);
    assert_eq!(list[0].meta_data.entry_start_pos, 0);
    assert_eq!(list[0].meta_data.entry_sz, first.get_self_size());
    assert_eq!(
        list[1].meta_data.entry_start_pos,
        first.get_self_size()
    );
    assert_eq!(
        list[2].meta_data.entry_start_pos,
        first.get_self_size() + second.get_self_size()
    );
}

#[test]
fn test_scan_stops_at_truncated_tail() {
    let first = Entry::new("alpha".to_string(), vec![1]).unwrap();
    let mut bytes = first.encode();
    let clean_len = bytes.len();
    let mut partial = Entry::new("beta".to_string(), vec![2, 3]).unwrap().encode();
    partial.truncate(partial.len() - 2);
    bytes.append(&mut partial);
    let file = DataFile::from_existing(MemIO::from_bytes(bytes), 1, DataFileType::OLD);
    let (list, end) = file.get_all_entries_with_metadata().unwrap();
    assert_eq!(list.len(), 1);
    assert_eq!(list[0].entry, first);
    assert_eq!(end, clean_len);
}
