//! Wire-level scenarios: literal request bytes in, literal reply bytes out,
//! through the decoder, the dispatcher and the encoder.

use resp_kv::command::{blpop_delivery_reply, handle_command, Step};
use resp_kv::server::RedisServer;
use resp_kv::ParseResult;

/// Feeds one frame's bytes and dispatches it, returning the reply bytes.
fn round(server: &mut RedisServer, bytes: &[u8], now: u64) -> Vec<u8> {
    let mut p = resp_kv::RespParser::new();
    p.feed(bytes);
    match p.parse() {
        ParseResult::Complete(v, n) => {
            assert_eq!(n, bytes.len());
            match handle_command(&v, &mut server.storage, &mut server.waiters, now) {
                (Step::Reply(b), _) => b,
                other => panic!("expected a reply, got {:?}", other),
            }
        }
        other => panic!("expected a complete frame, got {:?}", other),
    }
}

#[test]
fn test_wire_ping() {
    let mut server = RedisServer::new("127.0.0.1:6379".to_string());
    assert_eq!(round(&mut server, b"*1\r\n$4\r\nPING\r\n", 0), b"+PONG\r\n".to_vec());
}

#[test]
fn test_wire_set_then_get() {
    let mut server = RedisServer::new("127.0.0.1:6379".to_string());
    assert_eq!(
        round(&mut server, b"*3\r\n$3\r\nSET\r\n$1\r\nk\r\n$1\r\nv\r\n", 0),
        b"+OK\r\n".to_vec()
    );
    assert_eq!(
        round(&mut server, b"*2\r\n$3\r\nGET\r\n$1\r\nk\r\n", 0),
        b"$1\r\nv\r\n".to_vec()
    );
}

#[test]
fn test_wire_lpush_then_lrange() {
    let mut server = RedisServer::new("127.0.0.1:6379".to_string());
    assert_eq!(
        round(
            &mut server,
            b"*4\r\n$5\r\nLPUSH\r\n$1\r\nL\r\n$1\r\na\r\n$1\r\nb\r\n",
            0
        ),
        b":2\r\n".to_vec()
    );
    assert_eq!(
        round(
            &mut server,
            b"*4\r\n$6\r\nLRANGE\r\n$1\r\nL\r\n$1\r\n0\r\n$2\r\n-1\r\n",
            0
        ),
        b"*2\r\n$1\r\nb\r\n$1\r\na\r\n".to_vec()
    );
}

#[test]
fn test_wire_blpop_then_rpush_unblocks_the_waiter() {
    let mut server = RedisServer::new("127.0.0.1:6379".to_string());
    // client X blocks
    let mut p = resp_kv::RespParser::new();
    p.feed(b"*3\r\n$5\r\nBLPOP\r\n$1\r\nL\r\n$1\r\n0\r\n");
    let blocked = match p.parse() {
        ParseResult::Complete(v, _) => {
            handle_command(&v, &mut server.storage, &mut server.waiters, 0)
        }
        other => panic!("unexpected: {:?}", other),
    };
    let id = match blocked.0 {
        Step::Block(id, _) => id,
        other => panic!("expected to block, got {:?}", other),
    };
    // 100 ms later client Y pushes
    let mut p = resp_kv::RespParser::new();
    p.feed(b"*3\r\n$5\r\nRPUSH\r\n$1\r\nL\r\n$5\r\nhello\r\n");
    let (step, dels) = match p.parse() {
        ParseResult::Complete(v, _) => {
            handle_command(&v, &mut server.storage, &mut server.waiters, 100)
        }
        other => panic!("unexpected: {:?}", other),
    };
    assert_eq!(step, Step::Reply(b":1\r\n".to_vec()));
    assert_eq!(dels.len(), 1);
    assert_eq!(dels[0].waiter_id, id);
    // X receives the two-element array
    assert_eq!(
        blpop_delivery_reply(&dels[0]),
        b"*2\r\n$1\r\nL\r\n$5\r\nhello\r\n".to_vec()
    );
    // the delivered element is gone from the list
    assert_eq!(
        round(
            &mut server,
            b"*4\r\n$6\r\nLRANGE\r\n$1\r\nL\r\n$1\r\n0\r\n$2\r\n-1\r\n",
            200
        ),
        b"*0\r\n".to_vec()
    );
}

#[test]
fn test_wire_xadd_accepts_then_rejects_zero() {
    let mut server = RedisServer::new("127.0.0.1:6379".to_string());
    assert_eq!(
        round(
            &mut server,
            b"*5\r\n$4\r\nXADD\r\n$1\r\nS\r\n$3\r\n0-1\r\n$1\r\nf\r\n$1\r\nv\r\n",
            0
        ),
        b"$3\r\n0-1\r\n".to_vec()
    );
    assert_eq!(
        round(
            &mut server,
            b"*5\r\n$4\r\nXADD\r\n$1\r\nS\r\n$3\r\n0-0\r\n$1\r\nf\r\n$1\r\nv\r\n",
            0
        ),
        b"-ERR The ID specified in XADD must be greater than 0-0\r\n".to_vec()
    );
}

#[test]
fn test_wire_set_with_bad_expire() {
    let mut server = RedisServer::new("127.0.0.1:6379".to_string());
    assert_eq!(
        round(
            &mut server,
            b"*5\r\n$3\r\nSET\r\n$1\r\nk\r\n$1\r\nv\r\n$2\r\nEX\r\n$1\r\n0\r\n",
            0
        ),
        b"-ERR invalid expire time in 'SET' command\r\n".to_vec()
    );
    assert_eq!(
        round(
            &mut server,
            b"*5\r\n$3\r\nSET\r\n$1\r\nk\r\n$1\r\nv\r\n$2\r\nEX\r\n$3\r\nabc\r\n",
            0
        ),
        b"-ERR invalid expire time in 'SET' command\r\n".to_vec()
    );
}

#[test]
fn test_wire_two_frames_in_one_read_are_drained_in_order() {
    let mut server = RedisServer::new("127.0.0.1:6379".to_string());
    let mut p = resp_kv::RespParser::new();
    p.feed(b"*1\r\n$4\r\nPING\r\n*2\r\n$4\r\nECHO\r\n$2\r\nhi\r\n");
    let mut replies: Vec<Vec<u8>> = Vec::new();
    loop {
        match p.parse() {
            ParseResult::Complete(v, n) => {
                match handle_command(&v, &mut server.storage, &mut server.waiters, 0) {
                    (Step::Reply(b), _) => replies.push(b),
                    other => panic!("unexpected: {:?}", other),
                }
                p.consume(n);
            }
            ParseResult::Incomplete => break,
            ParseResult::Error(e) => panic!("error: {:?}", e),
        }
    }
    assert_eq!(replies, vec![b"+PONG\r\n".to_vec(), b"$2\r\nhi\r\n".to_vec()]);
}
