use bitcask::datafile::DataFile;
use bitcask::datafile::DataFileType;
use bitcask::db::Engine;
use bitcask::db::check_options;
use bitcask::entry::Entry;
use bitcask::error::E;
use bitcask::fio::MemIO;
use bitcask::keydir::KeyDir;
use bitcask::options::Options;

fn get_options() -> Options {
    Options {
        dir_path: "./test_data".to_string(),
        file_threshold: 5000,
        syn_after_each_write: false,
    }
}

fn get_engine() -> Engine<MemIO, KeyDir> {
    let options = get_options();
    let mem_index = KeyDir::new();
    let active_file = DataFile::new(MemIO::new(), 1);
    let older_files: Vec<DataFile<MemIO>> = Vec::new();
    Engine::new(options, mem_index, active_file, older_files)
}

#[test]
fn test_put_and_read() {
    let mut engine = get_engine();
    engine
        .put("hello".to_string(), "world".to_string().into_bytes())
        .unwrap();
    let vec = engine.read("hello".to_string()).unwrap();
    println!("{:?}", String::from_utf8(vec.clone()).unwrap());
    assert_eq!(vec, "world".as_bytes());
}

#[test]
fn test_delete() {
    let mut engine = get_engine();
    engine
        .put("hello".to_string(), "world".to_string().into_bytes())
        .unwrap();
    let vec = engine.read("hello".to_string()).unwrap();
    println!("{:?}", String::from_utf8(vec).unwrap());
    let deleted = engine.delete("hello".to_string()).unwrap();
    assert_eq!(deleted, "world".as_bytes());
    let err = engine.read("hello".to_string()).unwrap_err();
    println!("{}", err.message());
    assert_eq!(err, E::Nil);
}

#[test]
fn test_put_and_read_chinese() {
    let mut engine = get_engine();
    engine
        .put("你好".to_string(), "世界".to_string().into_bytes())
        .unwrap();
    let first = engine.read("你好".to_string()).unwrap();
    println!("{:?}", String::from_utf8(first.clone()));
    assert_eq!(first, "世界".as_bytes());
    let old = engine
        .update("你好".to_string(), "中国".to_string().into_bytes())
        .unwrap();
    assert_eq!(old, "世界".as_bytes());
    let second = engine.read("你好".to_string()).unwrap();
    println!("{:?}", String::from_utf8(second.clone()));
    assert_eq!(second, "中国".as_bytes());
}

#[test]
fn update() {
    let mut engine = get_engine();
    engine
        .put("hello".to_string(), "1".to_string().into_bytes())
        .unwrap();
    println!(
        "{:?}",
        String::from_utf8(engine.read("hello".to_string()).unwrap())
    );
    let old = engine
        .update("hello".to_string(), "wow".to_string().into_bytes())
        .unwrap();
    assert_eq!(old, "1".as_bytes());
    let vec = engine.read("hello".to_string()).unwrap();
    println!("{:?}", String::from_utf8(vec.clone()));
    assert_eq!(vec, "wow".as_bytes());
}

#[test]
fn test_multiple_put_and_read() {
    let mut engine = get_engine();
    engine
        .put("hello1".to_string(), "1".to_string().into_bytes())
        .unwrap();
    engine
        .put("hello2".to_string(), "2".to_string().into_bytes())
        .unwrap();
    engine
        .put("hello3".to_string(), "三".to_string().into_bytes())
        .unwrap();
    engine
        .put("hello4".to_string(), "四".to_string().into_bytes())
        .unwrap();
    engine
        .put("hello5".to_string(), "five".to_string().into_bytes())
        .unwrap();

    let r1 = engine.read("hello1".to_string()).unwrap();
    assert_eq!(r1, "1".as_bytes());

    let r2 = engine.read("hello2".to_string()).unwrap();
    assert_eq!(r2, "2".as_bytes());

    let r3 = engine.read("hello3".to_string()).unwrap();
    assert_eq!(r3, "三".as_bytes());

    let r4 = engine.read("hello4".to_string()).unwrap();
    assert_eq!(r4, "四".as_bytes());

    let r5 = engine.read("hello5".to_string()).unwrap();
    assert_eq!(r5, "five".as_bytes());
}

#[test]
fn test_multiple_delete_and_update() {
    let mut engine = get_engine();
    engine
        .put("hello1".to_string(), "1".to_string().into_bytes())
        .unwrap();
    engine
        .put("hello2".to_string(), "2".to_string().into_bytes())
        .unwrap();
    engine
        .put("hello3".to_string(), "三".to_string().into_bytes())
        .unwrap();
    engine
        .put("hello4".to_string(), "四".to_string().into_bytes())
        .unwrap();
    engine
        .put("hello5".to_string(), "five".to_string().into_bytes())
        .unwrap();

    let _ = engine.delete("hello1".to_string());
    let _ = engine.delete("hello3".to_string());
    let _ = engine.update("hello5".to_string(), "five-five".to_string().into_bytes());

    let r1 = engine.read("hello1".to_string()).unwrap_err();
    println!("{}", r1.message());
    assert_eq!(r1, E::Nil);

    let r2 = engine.read("hello2".to_string()).unwrap();
    assert_eq!(r2, "2".as_bytes());

    let r3 = engine.read("hello3".to_string()).unwrap_err();
    println!("{:?}", r3.message());
    assert_eq!(r3, E::Nil);

    let r4 = engine.read("hello4".to_string()).unwrap();
    assert_eq!(r4, "四".as_bytes());

    let r5 = engine.read("hello5".to_string()).unwrap();
    assert_eq!(r5, "five-five".as_bytes());

    let _ = engine.update("hello4".to_string(), "④".to_string().into_bytes());
    let r4 = engine.read("hello4".to_string()).unwrap();
    assert_eq!(r4, "④".as_bytes());
}

#[test]
pub fn test_delete_and_put() {
    let mut engine = get_engine();
    engine
        .put("hello".to_string(), "世界".to_string().into_bytes())
        .unwrap();
    let old = engine.delete("hello".to_string()).unwrap();
    println!("{:?}", String::from_utf8(old.clone()));
    assert_eq!(old, "世界".as_bytes());
    engine
        .put("hello".to_string(), "wow".to_string().into_bytes())
        .unwrap();
    let vec = engine.read("hello".to_string()).unwrap();
    println!("{:?}", String::from_utf8(vec.clone()));
    assert_eq!(vec, "wow".as_bytes());
}

#[test]
fn test_last_write_wins() {
    let mut engine = get_engine();
    for i in 0..20 {
        engine
            .put("counter".to_string(), format!("value-{}", i).into_bytes())
            .unwrap();
    }
    let r = engine.read("counter".to_string()).unwrap();
    assert_eq!(r, "value-19".as_bytes());
}

#[test]
fn test_rotation_keeps_everything_readable() {
    // 2000 entries of ten value bytes each: far past the 5000-byte
    // threshold, so several segments must exist and every value must
    // still be readable.
    let mut engine = get_engine();
    for i in 0..2000 {
        let key = format!("key-{}", i);
        let value = format!("val-{:05}", i).into_bytes();
        assert_eq!(value.len(), 9);
        engine.put(key, value).unwrap();
    }
    assert!(engine.num_sealed_segments() >= 1);
    for i in 0..2000 {
        let key = format!("key-{}", i);
        let value = engine.read(key).unwrap();
        assert_eq!(value, format!("val-{:05}", i).into_bytes());
    }
}

#[test]
fn test_close_and_reopen() {
    let mut engine = get_engine();
    engine
        .put("hello1".to_string(), "1".to_string().into_bytes())
        .unwrap();
    engine
        .put("hello2".to_string(), "2".to_string().into_bytes())
        .unwrap();
    engine
        .put("hello3".to_string(), "三".to_string().into_bytes())
        .unwrap();
    let _ = engine.delete("hello1".to_string());
    let _ = engine.update("hello3".to_string(), "3".to_string().into_bytes());

    let files = engine.close();
    let mut reopened = Engine::open(get_options(), files, KeyDir::new()).unwrap();

    assert_eq!(reopened.read("hello1".to_string()).unwrap_err(), E::Nil);
    assert_eq!(reopened.read("hello2".to_string()).unwrap(), "2".as_bytes());
    assert_eq!(reopened.read("hello3".to_string()).unwrap(), "3".as_bytes());
    // and the reopened engine keeps taking writes
    reopened
        .put("hello4".to_string(), "4".to_string().into_bytes())
        .unwrap();
    assert_eq!(reopened.read("hello4".to_string()).unwrap(), "4".as_bytes());
}

#[test]
fn test_reopen_after_rotation() {
    let mut engine = get_engine();
    for i in 0..2000 {
        engine
            .put(format!("key-{}", i), format!("val-{:05}", i).into_bytes())
            .unwrap();
    }
    let files = engine.close();
    assert!(files.len() >= 2);
    let reopened = Engine::open(get_options(), files, KeyDir::new()).unwrap();
    for i in 0..2000 {
        let value = reopened.read(format!("key-{}", i)).unwrap();
        assert_eq!(value, format!("val-{:05}", i).into_bytes());
    }
}

#[test]
fn test_corrupted_value_is_detected() {
    // Write one entry, flip one byte of its value on "disk", and reopen:
    // the CRC no longer matches, so read reports corruption.
    let entry = Entry::new("key".to_string(), vec![1, 2, 3]).unwrap();
    let mut bytes = entry.encode();
    let value_offset = bytes.len() - 3;
    bytes[value_offset] ^= 0xff;
    let file = DataFile::from_existing(MemIO::from_bytes(bytes), 1, DataFileType::ACTIVE);
    let engine = Engine::open(get_options(), vec![file], KeyDir::new()).unwrap();
    assert_eq!(engine.read("key".to_string()).unwrap_err(), E::DataCorrupted);
}

#[test]
fn test_recovery_ignores_truncated_tail() {
    // A crash can cut the last append short; recovery keeps everything
    // before the damaged tail and the store stays writable.
    let first = Entry::new("a".to_string(), vec![10, 20]).unwrap();
    let second = Entry::new("b".to_string(), vec![30, 40]).unwrap();
    let mut bytes = first.encode();
    let mut partial = second.encode();
    partial.truncate(partial.len() - 1);
    bytes.append(&mut partial);
    let file = DataFile::from_existing(MemIO::from_bytes(bytes), 1, DataFileType::ACTIVE);
    let mut engine = Engine::open(get_options(), vec![file], KeyDir::new()).unwrap();
    assert_eq!(engine.read("a".to_string()).unwrap(), vec![10, 20]);
    assert_eq!(engine.read("b".to_string()).unwrap_err(), E::Nil);
    engine.put("c".to_string(), vec![50]).unwrap();
    assert_eq!(engine.read("c".to_string()).unwrap(), vec![50]);
}

#[test]
fn test_validation_errors() {
    let mut engine = get_engine();
    assert_eq!(
        engine.put(String::new(), vec![1]).unwrap_err(),
        E::EmptyKey
    );
    assert_eq!(
        engine.put("k".to_string(), vec![]).unwrap_err(),
        E::EmptyValue
    );
    assert_eq!(engine.read(String::new()).unwrap_err(), E::EmptyKey);
    assert_eq!(engine.read("absent".to_string()).unwrap_err(), E::Nil);
    assert_eq!(
        engine.delete("absent".to_string()).unwrap_err(),
        E::KeyNotExist
    );
    assert_eq!(
        engine.update("absent".to_string(), vec![1]).unwrap_err(),
        E::KeyNotExist
    );
}

#[test]
fn test_open_rejects_empty_dir_path() {
    let opts = Options {
        dir_path: String::new(),
        file_threshold: 5000,
        syn_after_each_write: false,
    };
    let file = DataFile::new(MemIO::new(), 1);
    match Engine::open(opts, vec![file], KeyDir::new()) {
        Ok(_) => panic!("an empty directory path must be rejected"),
        Err(err) => assert_eq!(err, E::DirPathIsEmpty),
    }
}

#[test]
fn test_check_options_defaults_threshold() {
    let mut opts = Options {
        dir_path: "./test_data".to_string(),
        file_threshold: 0,
        syn_after_each_write: false,
    };
    assert!(check_options(&mut opts).is_none());
    assert_eq!(opts.file_threshold, 200 * 1024);

    let mut bad = Options {
        dir_path: String::new(),
        file_threshold: 5000,
        syn_after_each_write: false,
    };
    assert_eq!(check_options(&mut bad).unwrap(), E::DirPathIsEmpty);
}
