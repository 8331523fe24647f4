use miniredis::rdb::ConfigError;
use miniredis::rdb::DB;
use miniredis::rdb::HeaderError;
use miniredis::rdb::RDB;
use miniredis::rdb::read_redis_header;

fn args(list: &[&str]) -> Vec<String> {
    list.iter().map(|s| s.to_string()).collect()
}

#[test]
fn build_reads_both_switches() {
    let a = args(&["--dir", "/tmp/data", "--dbfilename", "dump.rdb"]);
    let c = RDB::build(&a).expect("configured");
    assert_eq!(c.dir, "/tmp/data");
    assert_eq!(c.file_name, "dump.rdb");

    // Order does not matter, and a later value wins.
    let a = args(&["--dbfilename", "dump.rdb", "--dir", "/a", "--dir", "/b"]);
    let c = RDB::build(&a).expect("configured");
    assert_eq!(c.dir, "/b");
    assert_eq!(c.file_name, "dump.rdb");
}

#[test]
fn build_rejects_bad_argument_lists() {
    let a = args(&["--dir"]);
    assert_eq!(RDB::build(&a).unwrap_err(), ConfigError::ExpectedPath);
    let a = args(&["--dbfilename"]);
    assert_eq!(RDB::build(&a).unwrap_err(), ConfigError::ExpectedFileName);
    let a = args(&["--port", "6379"]);
    assert_eq!(RDB::build(&a).unwrap_err(), ConfigError::InvalidArgs);
    let a = args(&["--dir", "/tmp/data"]);
    assert_eq!(RDB::build(&a).unwrap_err(), ConfigError::EmptyFileName);
    let a = args(&["--dbfilename", "dump.rdb"]);
    assert_eq!(RDB::build(&a).unwrap_err(), ConfigError::EmptyDirectory);
    let a = args(&[]);
    assert_eq!(RDB::build(&a).unwrap_err(), ConfigError::EmptyFileName);
}

#[test]
fn header_accepts_magic_and_version() {
    let src = b"REDIS0011rest".to_vec();
    let mut pos: usize = 0;
    assert_eq!(read_redis_header(&src, &mut pos), Ok(()));
    assert_eq!(pos, 9);
}

#[test]
fn header_rejects_bad_input() {
    let src = b"RDBX00".to_vec();
    let mut pos: usize = 0;
    assert_eq!(read_redis_header(&src, &mut pos), Err(HeaderError::TooShort));
    assert_eq!(pos, 0);

    let src = b"MAGIC0011".to_vec();
    let mut pos: usize = 0;
    assert_eq!(read_redis_header(&src, &mut pos), Err(HeaderError::BadMagic));

    let src = b"REDISv011".to_vec();
    let mut pos: usize = 0;
    assert_eq!(
        read_redis_header(&src, &mut pos),
        Err(HeaderError::BadVersion)
    );
}

#[test]
fn snapshot_db_get_and_set() {
    let mut db = DB::new();
    assert_eq!(db.get(&"k".to_string()), None);
    assert_eq!(db.set("k".to_string(), b"one".to_vec()), None);
    assert_eq!(db.get(&"k".to_string()), Some(b"one".to_vec()));
    // Insert returns the value it replaced.
    assert_eq!(
        db.set("k".to_string(), b"two".to_vec()),
        Some(b"one".to_vec())
    );
    assert_eq!(db.get(&"k".to_string()), Some(b"two".to_vec()));
    assert_eq!(db.get(&"other".to_string()), None);
}
