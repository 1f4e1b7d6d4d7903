use kvs::{
    distinct_generations, reply_step, ReplyStep,
    engine_allowed, generation_of, generations, get_outcome, handle_request, remove_outcome,
    serve_buffer, set_outcome, Command, Decoded, Error, ErrorKind, KvStore, KvsEngine, Request,
    Response, Result,
};
use std::sync::{Arc, Mutex};

fn s(x: &str) -> String {
    x.to_string()
}

#[derive(Clone)]
struct Shared(Arc<Mutex<KvStore>>);

impl Shared {
    fn new() -> Shared {
        Shared(Arc::new(Mutex::new(KvStore::open(Vec::new()).ok().unwrap())))
    }
}

impl KvsEngine for Shared {
    fn set(&self, key: String, value: String) -> Result<()> {
        self.0.lock().unwrap().set(key, value)
    }
    fn get(&self, key: String) -> Result<Option<String>> {
        self.0.lock().unwrap().get(key)
    }
    fn remove(&self, key: String) -> Result<()> {
        self.0.lock().unwrap().remove(key)
    }
}

fn text(b: &[u8]) -> String {
    String::from_utf8(b.to_vec()).unwrap()
}

#[test]
fn command_encoding_is_compact_json() {
    let c = Command::Put { key: s("a\"b"), value: s("x\ny\u{1}") };
    assert_eq!(
        text(&c.encode()),
        "{\"Set\":{\"key\":\"a\\\"b\",\"value\":\"x\\ny\\u0001\"}}"
    );
    let r = Command::Remove { key: s("k") };
    assert_eq!(text(&r.encode()), "{\"Remove\":{\"key\":\"k\"}}");
}

#[test]
fn command_decode_round_trip_and_position() {
    let a = Command::Put { key: s("{}\\"), value: s("é") };
    let b = Command::Remove { key: s("z") };
    let mut bytes = a.encode();
    let first = bytes.len();
    bytes.extend_from_slice(&b.encode());
    match Command::decode(&bytes, 0) {
        Decoded::Done(Command::Put { key, value }, e) => {
            assert_eq!(key, s("{}\\"));
            assert_eq!(value, s("é"));
            assert_eq!(e, first);
        }
        _ => panic!("first record not read"),
    }
    match Command::decode(&bytes, first) {
        Decoded::Done(Command::Remove { key }, e) => {
            assert_eq!(key, s("z"));
            assert_eq!(e, bytes.len());
        }
        _ => panic!("second record not read"),
    }
}

#[test]
fn command_decode_partial_and_malformed() {
    let bytes = Command::Put { key: s("k"), value: s("v") }.encode();
    for cut in 0..bytes.len() {
        assert!(matches!(Command::decode(&bytes[..cut], 0), Decoded::Partial), "cut {}", cut);
    }
    assert!(matches!(Command::decode(b"{\"Get\":{\"key\":\"k\"}}", 0), Decoded::Malformed));
    assert!(matches!(Command::decode(b"[1]", 0), Decoded::Malformed));
    assert!(matches!(Command::decode(b"{\"Set\":{\"key\":\"\\q\",\"value\":\"v\"}}", 0), Decoded::Malformed));
}

#[test]
fn request_round_trip() {
    let reqs = vec![
        Request::Put { key: s("k"), value: s("v") },
        Request::Get { key: s("\"q\"") },
        Request::Remove { key: s("") },
    ];
    let expected = [
        "{\"Set\":{\"key\":\"k\",\"value\":\"v\"}}",
        "{\"Get\":{\"key\":\"\\\"q\\\"\"}}",
        "{\"Remove\":{\"key\":\"\"}}",
    ];
    for (req, want) in reqs.iter().zip(expected.iter()) {
        let bytes = req.encode();
        assert_eq!(text(&bytes), *want);
        match Request::decode(&bytes, 0) {
            Decoded::Done(back, e) => {
                assert_eq!(e, bytes.len());
                assert_eq!(back.encode(), bytes);
            }
            _ => panic!("request not read back"),
        }
    }
}

#[test]
fn response_encoding_and_round_trip() {
    let cases = vec![
        (Response::Put(Ok(())), "{\"Set\":{\"Ok\":null}}"),
        (Response::Put(Err(s("bad"))), "{\"Set\":{\"Err\":\"bad\"}}"),
        (Response::Get(Ok(None)), "{\"Get\":{\"Ok\":null}}"),
        (Response::Get(Ok(Some(s("v")))), "{\"Get\":{\"Ok\":\"v\"}}"),
        (Response::Get(Err(s("e"))), "{\"Get\":{\"Err\":\"e\"}}"),
        (Response::Remove(Ok(())), "{\"Remove\":{\"Ok\":null}}"),
        (Response::Remove(Err(s("Key not found"))), "{\"Remove\":{\"Err\":\"Key not found\"}}"),
    ];
    for (resp, want) in cases {
        let bytes = resp.encode();
        assert_eq!(text(&bytes), want);
        match Response::decode(&bytes, 0) {
            Decoded::Done(back, e) => {
                assert_eq!(e, bytes.len());
                assert_eq!(back.encode(), bytes);
            }
            _ => panic!("response not read back: {}", want),
        }
        assert!(matches!(Response::decode(&bytes[..bytes.len() - 1], 0), Decoded::Partial));
    }
}

#[test]
fn response_from_store_results() {
    assert_eq!(text(&Response::set(Ok(())).encode()), "{\"Set\":{\"Ok\":null}}");
    let err = Error::new(ErrorKind::KeyNotFound);
    assert_eq!(
        text(&Response::remove(Err(err)).encode()),
        "{\"Remove\":{\"Err\":\"Key not found\"}}"
    );
    assert_eq!(text(&Response::get(Ok(Some(s("v")))).encode()), "{\"Get\":{\"Ok\":\"v\"}}");
    let err = Error::new(ErrorKind::UnexpectedError(s("boom")));
    assert_eq!(text(&Response::get(Err(err)).encode()), "{\"Get\":{\"Err\":\"Unexpected: boom\"}}");
}

#[test]
fn error_messages() {
    assert_eq!(Error::new(ErrorKind::KeyNotFound).message(), "Key not found");
    assert_eq!(Error::new(ErrorKind::FromUtf8Error).message(), "Can not convert bytes into string");
    assert_eq!(Error::new(ErrorKind::StringError(s("x"))).message(), "x");
    assert_eq!(Error::new(ErrorKind::Io(s("disk"))).message(), "disk");
}

#[test]
fn server_round_trip_set_get_remove() {
    let engine = Shared::new();
    let r = handle_request(&engine, Request::Put { key: s("K"), value: s("V") });
    assert!(matches!(r, Response::Put(Ok(()))));
    let r = handle_request(&engine, Request::Get { key: s("K") });
    assert!(matches!(r, Response::Get(Ok(Some(ref v))) if v == "V"));
    let r = handle_request(&engine, Request::Remove { key: s("K") });
    assert!(matches!(r, Response::Remove(Ok(()))));
    let r = handle_request(&engine, Request::Remove { key: s("K") });
    assert!(matches!(r, Response::Remove(Err(ref m)) if m == "Key not found"));
    assert!(matches!(remove_outcome(Some(r)), Err(e) if matches!(e.kind, ErrorKind::StringError(ref m) if m == "Key not found")));
}

#[test]
fn serve_buffer_answers_pipelined_requests_in_order() {
    let engine = Shared::new();
    let mut input = Request::Put { key: s("a"), value: s("1") }.encode();
    input.extend_from_slice(&Request::Get { key: s("a") }.encode());
    input.extend_from_slice(&Request::Get { key: s("b") }.encode());
    let whole = input.len();
    let tail = Request::Remove { key: s("a") }.encode();
    input.extend_from_slice(&tail[..5]);
    let served = serve_buffer(&engine, &input);
    assert_eq!(served.consumed, whole);
    assert!(!served.malformed);
    assert_eq!(
        text(&served.replies),
        "{\"Set\":{\"Ok\":null}}{\"Get\":{\"Ok\":\"1\"}}{\"Get\":{\"Ok\":null}}"
    );
    let rest = serve_buffer(&engine, &tail);
    assert_eq!(rest.consumed, tail.len());
    assert_eq!(text(&rest.replies), "{\"Remove\":{\"Ok\":null}}");
}

#[test]
fn serve_buffer_stops_at_malformed_request() {
    let engine = Shared::new();
    let mut input = Request::Get { key: s("a") }.encode();
    let first = input.len();
    input.extend_from_slice(b"hello");
    let served = serve_buffer(&engine, &input);
    assert!(served.malformed);
    assert_eq!(served.consumed, first);
    assert_eq!(text(&served.replies), "{\"Get\":{\"Ok\":null}}");
}

#[test]
fn interleaved_clients_read_their_own_writes() {
    let engine = Shared::new();
    for i in 0..100 {
        for c in 0..64 {
            let r = handle_request(&engine, Request::Put { key: format!("k{}_{}", c, i), value: format!("v{}_{}", c, i) });
            assert!(matches!(r, Response::Put(Ok(()))));
            let r = handle_request(&engine, Request::Get { key: format!("k{}_{}", c, i) });
            assert!(matches!(r, Response::Get(Ok(Some(ref v))) if *v == format!("v{}_{}", c, i)));
        }
    }
    for c in 0..64 {
        for i in 0..100 {
            assert_eq!(engine.get(format!("k{}_{}", c, i)).ok().unwrap(), Some(format!("v{}_{}", c, i)));
        }
    }
}

#[test]
fn client_outcomes() {
    assert!(set_outcome(Some(Response::Put(Ok(())))).is_ok());
    assert!(matches!(set_outcome(Some(Response::Put(Err(s("m"))))), Err(e) if matches!(e.kind, ErrorKind::StringError(ref m) if m == "m")));
    assert!(matches!(set_outcome(Some(Response::Get(Ok(None)))), Err(e) if matches!(e.kind, ErrorKind::UnexpectedError(ref m) if m == "Client received an unexpected response")));
    assert!(matches!(set_outcome(None), Err(e) if matches!(e.kind, ErrorKind::UnexpectedError(ref m) if m == "Can not deserialize next response")));
    assert_eq!(get_outcome(Some(Response::Get(Ok(Some(s("v")))))).ok().unwrap(), Some(s("v")));
    assert_eq!(get_outcome(Some(Response::Get(Ok(None)))).ok().unwrap(), None);
    assert!(matches!(get_outcome(Some(Response::Remove(Ok(())))), Err(e) if matches!(e.kind, ErrorKind::UnexpectedError(_))));
    assert!(remove_outcome(Some(Response::Remove(Ok(())))).is_ok());
    assert!(matches!(remove_outcome(None), Err(e) if matches!(e.kind, ErrorKind::UnexpectedError(_))));
}

#[test]
fn segment_file_names() {
    assert_eq!(generation_of("12.log"), Some(12));
    assert_eq!(generation_of("0.log"), Some(0));
    assert_eq!(generation_of("18446744073709551615.log"), Some(u64::MAX));
    assert_eq!(generation_of("18446744073709551616.log"), None);
    assert_eq!(generation_of(".log"), None);
    assert_eq!(generation_of("1a.log"), None);
    assert_eq!(generation_of("1.txt"), None);
    assert_eq!(generation_of("engine"), None);
    assert_eq!(generation_of("+1.log"), Some(1));
    assert_eq!(generation_of("1.log.log"), Some(1));
    assert_eq!(generation_of("+.log"), None);
    assert_eq!(generation_of("-1.log"), None);
    assert_eq!(generation_of("1.log.txt"), None);
    assert_eq!(generation_of("007.log"), Some(7));
    let names = vec![s("10.log"), s("2.log"), s("engine"), s("1.log"), s("02.log"), s("x.log")];
    assert_eq!(generations(&names), vec![1, 2, 2, 10]);
    assert_eq!(generations(&Vec::new()), Vec::<u64>::new());
    let names = vec![s("1.log"), s("01.log")];
    assert_eq!(generations(&names), vec![1, 1]);
    assert_eq!(distinct_generations(&vec![3, 1, 3, 2, 1]), vec![1, 2, 3]);
    assert_eq!(distinct_generations(&Vec::new()), Vec::<u64>::new());
}

#[test]
fn engine_pinning() {
    assert!(engine_allowed(&None, &s("kvs")));
    assert!(engine_allowed(&Some(s("kvs")), &s("kvs")));
    assert!(!engine_allowed(&Some(s("kvs")), &s("sled")));
}

#[test]
fn reply_step_reads_one_reply() {
    let mut bytes = Response::Get(Ok(Some(s("v")))).encode();
    let whole = bytes.len();
    bytes.extend_from_slice(b"{\"Set\"");
    assert!(matches!(reply_step(&bytes, false), ReplyStep::Reply(Response::Get(Ok(Some(ref v))), n) if v == "v" && n == whole));
    assert!(matches!(reply_step(&bytes[..whole - 1], false), ReplyStep::NeedMore));
    assert!(matches!(reply_step(&bytes[..whole - 1], true), ReplyStep::Ended));
    assert!(matches!(reply_step(b"", true), ReplyStep::Ended));
    assert!(matches!(reply_step(b"oops", false), ReplyStep::Malformed));
}
