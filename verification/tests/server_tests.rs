use std::sync::Arc;

use miniredis::rdb::RDB;
use miniredis::resp::Frame;
use miniredis::server::process_read;
use miniredis::server::respond;
use miniredis::store::SharedStore;
use miniredis::store::Store;

fn no_conf() -> Option<RDB> {
    None
}

#[test]
fn end_to_end_scenario() {
    let mut store = Store::new();
    let conf = no_conf();

    let (out, used) = process_read(&b"*1\r\n$4\r\nPING\r\n".to_vec(), &mut store, &conf, 0);
    assert_eq!(out, b"+PONG\r\n".to_vec());
    assert_eq!(used, 14);

    let (out, _) = process_read(
        &b"*3\r\n$3\r\nSET\r\n$3\r\nfoo\r\n$3\r\nbar\r\n".to_vec(),
        &mut store,
        &conf,
        0,
    );
    assert_eq!(out, b"+OK\r\n".to_vec());

    let (out, _) = process_read(&b"*2\r\n$3\r\nGET\r\n$3\r\nfoo\r\n".to_vec(), &mut store, &conf, 0);
    assert_eq!(out, b"$3\r\nbar\r\n".to_vec());

    let (out, _) = process_read(
        &b"*2\r\n$3\r\nGET\r\n$6\r\nabsent\r\n".to_vec(),
        &mut store,
        &conf,
        0,
    );
    assert_eq!(out, b"$-1\r\n".to_vec());
}

#[test]
fn pipelined_frames_in_one_read() {
    let mut store = Store::new();
    let conf = no_conf();
    let input = b"*3\r\n$3\r\nSET\r\n$1\r\nk\r\n$1\r\nv\r\n*2\r\n$3\r\nGET\r\n$1\r\nk\r\n".to_vec();
    let (out, used) = process_read(&input, &mut store, &conf, 0);
    assert_eq!(out, b"+OK\r\n$1\r\nv\r\n".to_vec());
    assert_eq!(used, input.len());
}

#[test]
fn incomplete_tail_is_left_for_the_next_read() {
    let mut store = Store::new();
    let conf = no_conf();
    // A whole PING, then half of a GET.
    let input = b"*1\r\n$4\r\nPING\r\n*2\r\n$3\r\nGET".to_vec();
    let (out, used) = process_read(&input, &mut store, &conf, 0);
    assert_eq!(out, b"+PONG\r\n".to_vec());
    assert_eq!(used, 14);
    // The caller keeps the tail and completes it with the next read.
    let mut rest = input[used..].to_vec();
    rest.extend_from_slice(b"\r\n$1\r\nk\r\n");
    let (out, used2) = process_read(&rest, &mut store, &conf, 0);
    assert_eq!(out, b"$-1\r\n".to_vec());
    assert_eq!(used2, rest.len());
}

#[test]
fn malformed_bytes_are_dropped_whole() {
    let mut store = Store::new();
    let conf = no_conf();
    let input = b"*1\r\n$4\r\nPING\r\nXgarbage".to_vec();
    let (out, used) = process_read(&input, &mut store, &conf, 0);
    assert_eq!(out, b"+PONG\r\n".to_vec());
    // An unknown tag byte is not a split frame: the buffer is consumed.
    assert_eq!(used, input.len());
}

#[test]
fn non_command_frames_are_echoed_back() {
    let mut store = Store::new();
    let conf = no_conf();
    // An error frame is no command; the handler echoes it verbatim.
    let (out, _) = process_read(&b"-oops\r\n".to_vec(), &mut store, &conf, 0);
    assert_eq!(out, b"-oops\r\n".to_vec());
    // So is a bare integer.
    let (out, _) = process_read(&b":42\r\n".to_vec(), &mut store, &conf, 0);
    assert_eq!(out, b":42\r\n".to_vec());
}

#[test]
fn unechoable_frame_yields_an_error_frame() {
    let mut store = Store::new();
    let conf = no_conf();
    // GET with a non-UTF-8 key is no command, and the frame cannot be
    // re-serialized either: an error frame describes the failure.
    let mut input = b"*2\r\n$3\r\nGET\r\n$2\r\n".to_vec();
    input.extend_from_slice(&[0xff, 0xfe]);
    input.extend_from_slice(b"\r\n");
    let frame = {
        let mut pos = 0usize;
        Frame::parse(&input, &mut pos).expect("parses")
    };
    let out = respond(&frame, &mut store, &conf, 0);
    assert_eq!(out, b"-bulk payload is not valid utf-8\r\n".to_vec());
}

#[test]
fn expiry_over_the_wire() {
    let mut store = Store::new();
    let conf = no_conf();
    let input = b"*5\r\n$3\r\nSET\r\n$1\r\nk\r\n$1\r\nv\r\n$2\r\nPX\r\n$3\r\n100\r\n".to_vec();
    let (out, _) = process_read(&input, &mut store, &conf, 1_000);
    assert_eq!(out, b"+OK\r\n".to_vec());

    let get = b"*2\r\n$3\r\nGET\r\n$1\r\nk\r\n".to_vec();
    let (out, _) = process_read(&get, &mut store, &conf, 1_099);
    assert_eq!(out, b"$1\r\nv\r\n".to_vec());
    let (out, _) = process_read(&get, &mut store, &conf, 1_100);
    assert_eq!(out, b"$-1\r\n".to_vec());
}

#[test]
fn set_with_bad_expiry_touches_nothing() {
    let mut store = Store::new();
    let conf = no_conf();
    // The command is rejected, so the store is untouched and the frame
    // is echoed back.
    let input = b"*5\r\n$3\r\nSET\r\n$1\r\nk\r\n$1\r\nv\r\n$2\r\nPX\r\n$3\r\nabc\r\n".to_vec();
    let (out, _) = process_read(&input, &mut store, &conf, 0);
    assert_eq!(out, input);
    let (out, _) = process_read(&b"*2\r\n$3\r\nGET\r\n$1\r\nk\r\n".to_vec(), &mut store, &conf, 0);
    assert_eq!(out, b"$-1\r\n".to_vec());
}

#[test]
fn config_get_serves_the_configured_names() {
    let mut store = Store::new();
    let conf = Some(RDB { dir: "/tmp/data".to_string(), file_name: "dump.rdb".to_string() });

    // Requesting dbfilename then dir still returns dir's pair first.
    let input = b"*4\r\n$6\r\nCONFIG\r\n$3\r\nGET\r\n$10\r\ndbfilename\r\n$3\r\ndir\r\n".to_vec();
    let (out, _) = process_read(&input, &mut store, &conf, 0);
    assert_eq!(
        out,
        b"*4\r\n$3\r\ndir\r\n$9\r\n/tmp/data\r\n$10\r\ndbfilename\r\n$8\r\ndump.rdb\r\n".to_vec()
    );

    // One name alone yields one pair.
    let input = b"*3\r\n$6\r\nCONFIG\r\n$3\r\nGET\r\n$10\r\ndbfilename\r\n".to_vec();
    let (out, _) = process_read(&input, &mut store, &conf, 0);
    assert_eq!(out, b"*2\r\n$10\r\ndbfilename\r\n$8\r\ndump.rdb\r\n".to_vec());
}

#[test]
fn config_get_without_configuration_is_an_error_frame() {
    let mut store = Store::new();
    let conf = no_conf();
    let input = b"*3\r\n$6\r\nCONFIG\r\n$3\r\nGET\r\n$3\r\ndir\r\n".to_vec();
    let (out, _) = process_read(&input, &mut store, &conf, 0);
    assert_eq!(out, b"-no snapshot configuration\r\n".to_vec());
}

#[test]
fn shared_store_serves_connections() {
    let shared = Arc::new(SharedStore::new());
    let conf = no_conf();
    let (out, _) = shared.handle_read(&b"*1\r\n$4\r\nPING\r\n".to_vec(), &conf, 0);
    assert_eq!(out, b"+PONG\r\n".to_vec());
    shared.set(b"k".to_vec(), b"v".to_vec(), None, 0);
    let frame = {
        let src = b"*2\r\n$3\r\nGET\r\n$1\r\nk\r\n".to_vec();
        let mut pos = 0usize;
        Frame::parse(&src, &mut pos).expect("parses")
    };
    let out = shared.handle_frame(&frame, &conf, 0);
    assert_eq!(out, b"$1\r\nv\r\n".to_vec());
}

#[test]
fn concurrent_clients_see_their_own_keys() {
    let shared = Arc::new(SharedStore::new());
    let rt = tokio::runtime::Runtime::new().unwrap();
    rt.block_on(async {
        let n: u32 = 16;
        let mut handles = Vec::new();
        for i in 0..n {
            let s = Arc::clone(&shared);
            handles.push(tokio::spawn(async move {
                let set = format!("*3\r\n$3\r\nSET\r\n$4\r\nkey{:01}\r\n$4\r\nval{:01}\r\n", i % 10, i % 10);
                let (out, _) = s.handle_read(&set.into_bytes(), &None, 0);
                assert_eq!(out, b"+OK\r\n".to_vec());
            }));
        }
        for h in handles {
            h.await.unwrap();
        }
        let mut handles = Vec::new();
        for i in 0..10u32 {
            let s = Arc::clone(&shared);
            handles.push(tokio::spawn(async move {
                let get = format!("*2\r\n$3\r\nGET\r\n$4\r\nkey{:01}\r\n", i);
                let (out, _) = s.handle_read(&get.into_bytes(), &None, 0);
                let expected = format!("$4\r\nval{:01}\r\n", i).into_bytes();
                assert_eq!(out, expected);
            }));
        }
        for h in handles {
            h.await.unwrap();
        }
    });
}
