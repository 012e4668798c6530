use redis_lite::commands::{Cmd, CommandError};
use redis_lite::server::{handle_frame, RedisArgs};
use redis_lite::store::RandomMap;

fn config(dir: &str, dbfilename: &str) -> RandomMap {
    RedisArgs { port: 6379, dir: dir.as_bytes().to_vec(), dbfilename: dbfilename.as_bytes().to_vec() }
        .populate_config_db()
}

fn frame(parts: &[&[u8]]) -> Vec<u8> {
    let mut out = format!("*{}\r\n", parts.len()).into_bytes();
    for p in parts {
        out.extend_from_slice(format!("${}\r\n", p.len()).as_bytes());
        out.extend_from_slice(p);
        out.extend_from_slice(b"\r\n");
    }
    out
}

#[test]
fn ping() {
    let mut db = RandomMap::new();
    let cfg = config("data/", "dump.rdb");
    assert_eq!(handle_frame(&mut db, &cfg, b"*1\r\n$4\r\nPING\r\n", 0), b"+PONG\r\n".to_vec());
}

#[test]
fn ping_with_argument_and_too_many() {
    let mut db = RandomMap::new();
    let cfg = config("data/", "dump.rdb");
    assert_eq!(handle_frame(&mut db, &cfg, &frame(&[b"ping", b"hi"]), 0), b"+hi\r\n".to_vec());
    let r = handle_frame(&mut db, &cfg, &frame(&[b"PING", b"a", b"b"]), 0);
    assert_eq!(r, b"-ERR wrong number of arguments\r\n".to_vec());
}

#[test]
fn echo() {
    let mut db = RandomMap::new();
    let cfg = config("data/", "dump.rdb");
    let r = handle_frame(&mut db, &cfg, b"*2\r\n$4\r\nECHO\r\n$5\r\nhello\r\n", 0);
    assert_eq!(r, b"+hello\r\n".to_vec());
    let r = handle_frame(&mut db, &cfg, &frame(&[b"ECHO"]), 0);
    assert_eq!(r, b"-ERR wrong number of arguments\r\n".to_vec());
}

#[test]
fn set_then_get() {
    let mut db = RandomMap::new();
    let cfg = config("data/", "dump.rdb");
    let r = handle_frame(&mut db, &cfg, b"*3\r\n$3\r\nSET\r\n$3\r\nfoo\r\n$3\r\nbar\r\n", 0);
    assert_eq!(r, b"+OK\r\n".to_vec());
    let r = handle_frame(&mut db, &cfg, b"*2\r\n$3\r\nGET\r\n$3\r\nfoo\r\n", 0);
    assert_eq!(r, b"$3\r\nbar\r\n".to_vec());
}

#[test]
fn get_of_missing_key_is_null() {
    let mut db = RandomMap::new();
    let cfg = config("data/", "dump.rdb");
    assert_eq!(handle_frame(&mut db, &cfg, &frame(&[b"get", b"nope"]), 0), b"$-1\r\n".to_vec());
}

#[test]
fn set_px_expires() {
    let mut db = RandomMap::new();
    let cfg = config("data/", "dump.rdb");
    let start = 1_700_000_000_000u64;
    let r = handle_frame(&mut db, &cfg, &frame(&[b"SET", b"k", b"v", b"PX", b"50"]), start);
    assert_eq!(r, b"+OK\r\n".to_vec());
    let r = handle_frame(&mut db, &cfg, &frame(&[b"GET", b"k"]), start + 10);
    assert_eq!(r, b"$1\r\nv\r\n".to_vec());
    let r = handle_frame(&mut db, &cfg, &frame(&[b"GET", b"k"]), start + 100);
    assert_eq!(r, b"$-1\r\n".to_vec());
    assert_eq!(db.len(), 0);
}

#[test]
fn set_ex_is_seconds() {
    let mut db = RandomMap::new();
    let cfg = config("data/", "dump.rdb");
    handle_frame(&mut db, &cfg, &frame(&[b"set", b"k", b"v", b"ex", b"2"]), 1000);
    assert_eq!(handle_frame(&mut db, &cfg, &frame(&[b"GET", b"k"]), 2999), b"$1\r\nv\r\n".to_vec());
    assert_eq!(handle_frame(&mut db, &cfg, &frame(&[b"GET", b"k"]), 3000), b"$-1\r\n".to_vec());
}

#[test]
fn set_with_px_and_ex_is_refused() {
    let mut db = RandomMap::new();
    let cfg = config("data/", "dump.rdb");
    let r = handle_frame(&mut db, &cfg, &frame(&[b"SET", b"k", b"v", b"PX", b"100", b"EX", b"1"]), 0);
    assert_eq!(r[0], b'-');
    let text = String::from_utf8(r).unwrap();
    assert!(text.contains("mutually exclusive"));
    assert_eq!(db.len(), 0);
}

#[test]
fn set_errors() {
    let mut db = RandomMap::new();
    let cfg = config("data/", "dump.rdb");
    let r = handle_frame(&mut db, &cfg, &frame(&[b"SET", b"k", b"v", b"PX", b"soon"]), 0);
    assert_eq!(r, b"-ERR SET expiry is not a number\r\n".to_vec());
    let r = handle_frame(&mut db, &cfg, &frame(&[b"SET", b"k", b"v", b"EX", b"18446744073709551615"]), 0);
    assert_eq!(r, b"-ERR SET expiry overflows\r\n".to_vec());
    let r = handle_frame(&mut db, &cfg, &frame(&[b"SET", b"k", b"v", b"PX", b"18446744073709551615"]), 5);
    assert_eq!(r, b"-ERR SET expiry overflows\r\n".to_vec());
    let r = handle_frame(&mut db, &cfg, &frame(&[b"SET", b"k", b"v", b"KEEPTTL"]), 0);
    assert_eq!(r, b"-ERR unknown optional argument 'keepttl'\r\n".to_vec());
    let r = handle_frame(&mut db, &cfg, &frame(&[b"SET", b"k"]), 0);
    assert_eq!(r, b"-ERR wrong number of arguments\r\n".to_vec());
    assert_eq!(db.len(), 0);
}

#[test]
fn config_get() {
    let mut db = RandomMap::new();
    let cfg = config("/tmp", "dump.rdb");
    let r = handle_frame(&mut db, &cfg, b"*3\r\n$6\r\nCONFIG\r\n$3\r\nGET\r\n$3\r\ndir\r\n", 0);
    assert_eq!(r, b"*2\r\n$3\r\ndir\r\n$4\r\n/tmp\r\n".to_vec());
}

#[test]
fn config_get_sorts_dedups_and_skips_unknown() {
    let mut db = RandomMap::new();
    let cfg = config("/tmp", "dump.rdb");
    let r = handle_frame(
        &mut db,
        &cfg,
        &frame(&[b"config", b"get", b"PORT", b"dir", b"nothing", b"Dir", b"dbfilename"]),
        0,
    );
    assert_eq!(
        r,
        b"*6\r\n$10\r\ndbfilename\r\n$8\r\ndump.rdb\r\n$3\r\ndir\r\n$4\r\n/tmp\r\n$4\r\nport\r\n$4\r\n6379\r\n"
            .to_vec()
    );
}

#[test]
fn config_errors() {
    let mut db = RandomMap::new();
    let cfg = config("/tmp", "dump.rdb");
    assert_eq!(
        handle_frame(&mut db, &cfg, &frame(&[b"CONFIG"]), 0),
        b"-ERR CONFIG subcommand missing\r\n".to_vec()
    );
    assert_eq!(
        handle_frame(&mut db, &cfg, &frame(&[b"CONFIG", b"SET"]), 0),
        b"-ERR unknown CONFIG subcommand 'set'\r\n".to_vec()
    );
    assert_eq!(
        handle_frame(&mut db, &cfg, &frame(&[b"CONFIG", b"GET"]), 0),
        b"-ERR wrong number of arguments\r\n".to_vec()
    );
}

#[test]
fn unknown_command_and_malformed_frame() {
    let mut db = RandomMap::new();
    let cfg = config("/tmp", "dump.rdb");
    assert_eq!(
        handle_frame(&mut db, &cfg, &frame(&[b"FLUSHALL"]), 0),
        b"-ERR unknown command 'flushall'\r\n".to_vec()
    );
    assert_eq!(handle_frame(&mut db, &cfg, b"PING\r\n", 0), b"-ERR malformed frame\r\n".to_vec());
    assert_eq!(handle_frame(&mut db, &cfg, b"*0\r\n", 0), b"-ERR command is empty\r\n".to_vec());
}

#[test]
fn unrenderable_reply_becomes_internal_error() {
    let mut db = RandomMap::new();
    let cfg = config("/tmp", "dump.rdb");
    let r = handle_frame(&mut db, &cfg, &frame(&[b"ECHO", b"a\r\nb"]), 0);
    assert_eq!(r, b"-ERR internal error\r\n".to_vec());
}

#[test]
fn command_errors_directly() {
    let args = vec![b"get".to_vec()];
    match Cmd::from_args(&args) {
        Err(CommandError::WrongArity) => {}
        _ => panic!("expected an arity error"),
    }
    match Cmd::from_args(&[]) {
        Err(e) => assert_eq!(e.to_reply().0, b"ERR command is empty".to_vec()),
        Ok(_) => panic!("expected an error"),
    }
    let args = vec![b"SET".to_vec(), b"k".to_vec(), b"v".to_vec(), b"px".to_vec(), b"7".to_vec()];
    match Cmd::from_args(&args) {
        Ok(Cmd::SetValue(s)) => {
            assert_eq!(s.key, b"k".to_vec());
            assert_eq!(s.ttl_ms, Some(7));
        }
        _ => panic!("expected SET"),
    }
}

#[test]
fn config_holds_the_port() {
    let mut cfg = config("d", "f");
    assert_eq!(cfg.get(b"port", 0).unwrap().content, b"6379".to_vec());
    assert_eq!(cfg.len(), 3);
}
