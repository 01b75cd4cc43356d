use grin_cuckatoo_miner::hex_text::HexError;
use grin_cuckatoo_miner::link::Link;
use grin_cuckatoo_miner::stratum::{
    accept_push, choose_job, ensure_ok, job_reply, read_message, submit_outcome, FrameReader,
    FrameStep, Incoming, Job, JobChoice, Message, Request, RequestTable, RpcError, SubmitOutcome,
    SubmitParams, MAX_STRATUM_FRAME_BYTES,
};
use serde_json::Value;

fn json(text: &str) -> Value {
    serde_json::from_str(text).unwrap()
}

fn job_from(text: &str) -> Job {
    let value = json(text);
    Job {
        height: value["height"].as_u64().unwrap(),
        job_id: value["job_id"].as_u64().unwrap(),
        difficulty: value["difficulty"].as_u64().unwrap(),
        pre_pow: value["pre_pow"].as_str().unwrap().to_string(),
    }
}

#[test]
fn parses_getjob_and_push_shape() {
    let job = job_from(r#"{"height": 7, "job_id": 3, "difficulty": 1, "pre_pow": "00"}"#);
    assert_eq!(job.pre_pow_bytes().unwrap(), vec![0]);
}

#[test]
fn submit_uses_decimal_nonce() {
    let proof = vec![1, 2, 3, 4];
    let value = json(
        &SubmitParams {
            edge_bits: 10,
            height: 9,
            job_id: 2,
            nonce: 42,
            pow: &proof,
        }
        .to_json(),
    );
    assert_eq!(value["nonce"], 42);
    assert_eq!(value["pow"], json("[1, 2, 3, 4]"));
    assert_eq!(
        value,
        json(r#"{"edge_bits": 10, "height": 9, "job_id": 2, "nonce": 42, "pow": [1, 2, 3, 4]}"#)
    );
}

#[test]
fn large_numbers_keep_every_digit() {
    let params = SubmitParams {
        edge_bits: 32,
        height: u64::MAX,
        job_id: 0,
        nonce: 10_000_000_000_000_000_019,
        pow: &[],
    };
    assert_eq!(
        params.to_json(),
        r#"{"edge_bits":32,"height":18446744073709551615,"job_id":0,"nonce":10000000000000000019,"pow":[]}"#
    );
}

#[test]
fn headers_are_hexadecimal() {
    let with = |pre_pow: &str| Job {
        height: 1,
        job_id: 0,
        difficulty: 1,
        pre_pow: pre_pow.to_string(),
    };
    assert_eq!(with("00fFA9").pre_pow_bytes(), Ok(vec![0, 0xff, 0xa9]));
    assert_eq!(with("").pre_pow_bytes(), Ok(vec![]));
    assert_eq!(with("0").pre_pow_bytes(), Err(HexError::OddLength));
    assert_eq!(
        with("0g").pre_pow_bytes(),
        Err(HexError::InvalidHexCharacter { c: 'g', index: 1 })
    );
}

#[test]
fn texts_are_quoted() {
    let line = Request::Login {
        login: "a\"\\/\u{8}\t\n\u{c}\r\u{1}\u{1f}\u{7f}\u{e9}",
        password: "",
    }
    .line(1);
    assert_eq!(
        line,
        "{\"id\":1,\"jsonrpc\":\"2.0\",\"method\":\"login\",\"params\":{\"agent\":\"grin-cuckatoo-rust/0.1\",\"login\":\"a\\\"\\\\/\\b\\t\\n\\f\\r\\u0001\\u001f\u{7f}\u{e9}\",\"pass\":\"\"}}\n"
    );
}

#[test]
fn requests_are_lines_of_json() {
    let login = Request::Login {
        login: "a \"b\"\n",
        password: "x",
    }
    .line(1);
    assert!(login.ends_with("}\n"));
    assert_eq!(
        json(&login),
        json(
            r#"{"id": 1, "jsonrpc": "2.0", "method": "login",
                "params": {"login": "a \"b\"\n", "pass": "x", "agent": "grin-cuckatoo-rust/0.1"}}"#
        )
    );
    assert_eq!(
        json(&Request::GetJobTemplate.line(7)),
        json(r#"{"id": 7, "jsonrpc": "2.0", "method": "getjobtemplate", "params": null}"#)
    );
    let submit = Request::Submit(SubmitParams {
        edge_bits: 10,
        height: 9,
        job_id: 2,
        nonce: 42,
        pow: &[1, 2],
    })
    .line(3);
    assert_eq!(json(&submit)["params"]["pow"], json("[1, 2]"));
    assert_eq!(json(&submit)["method"], "submit");
}

#[test]
fn oversized_frame_is_rejected() {
    let bytes = vec![b'x'; MAX_STRATUM_FRAME_BYTES + 1];
    let mut reader = FrameReader::new();
    assert!(matches!(reader.feed(&bytes), FrameStep::TooLong));
}

#[test]
fn largest_frame_is_read() {
    let mut bytes = vec![b'x'; MAX_STRATUM_FRAME_BYTES - 1];
    bytes.push(b'\n');
    let mut reader = FrameReader::new();
    let FrameStep::Complete(taken, frame) = reader.feed(&bytes) else {
        panic!("the frame is complete");
    };
    assert_eq!(taken, MAX_STRATUM_FRAME_BYTES);
    assert_eq!(frame.len(), MAX_STRATUM_FRAME_BYTES - 1);
}

#[test]
fn frames_do_not_depend_on_cuts() {
    let stream = b"one\r\ntwo\nthree";
    for cut in 0..stream.len() {
        let mut reader = FrameReader::new();
        let mut frames = Vec::new();
        for mut piece in [&stream[..cut], &stream[cut..]] {
            while !piece.is_empty() {
                match reader.feed(piece) {
                    FrameStep::Complete(taken, frame) => {
                        frames.push(frame);
                        piece = &piece[taken..];
                    }
                    FrameStep::More => break,
                    FrameStep::TooLong => unreachable!(),
                }
            }
        }
        assert_eq!(frames, [b"one".to_vec(), b"two".to_vec()]);
        assert_eq!(reader.finish(), Some(b"three".to_vec()));
    }
    assert_eq!(FrameReader::new().finish(), None);
}

fn reply(text: &str) -> Message {
    match read_message(text.as_bytes()) {
        Incoming::Reply(_, message) => message,
        other => panic!("no reply: {other:?}"),
    }
}

#[test]
fn messages_are_sorted() {
    assert!(matches!(read_message(b"nonsense"), Incoming::Invalid));
    assert!(matches!(
        read_message(br#"{"id": 9, "result": "ok"}"#),
        Incoming::Reply(9, _)
    ));
    assert!(matches!(
        read_message(br#"{"id": "12", "result": "ok"}"#),
        Incoming::Reply(12, _)
    ));
    assert!(matches!(
        read_message(br#"{"id": "Stratum", "result": "ok"}"#),
        Incoming::Ignored
    ));
    assert!(matches!(read_message(b"[]"), Incoming::Ignored));
    let push = br#"{"id": 5, "method": "job", "params": {"height": 11}}"#;
    let Incoming::Push(Some(params)) = read_message(push) else {
        panic!("a push");
    };
    assert_eq!(json(&params), json(r#"{"height": 11}"#));
    assert!(matches!(
        read_message(br#"{"method": "job"}"#),
        Incoming::Push(None)
    ));
}

#[test]
fn replies_report_success() {
    assert_eq!(
        ensure_ok(&reply(r#"{"id": 1, "result": "ok", "error": null}"#), "login"),
        Ok(())
    );
    assert_eq!(
        ensure_ok(&reply(r#"{"id": 1, "result": null, "error": {"code": 5}}"#), "login"),
        Err(r#"login rejected: {"code":5}"#.to_string())
    );
    assert_eq!(
        ensure_ok(&reply(r#"{"id": 1, "error": null}"#), "login"),
        Err("login returned no success result".to_string())
    );
    assert_eq!(
        job_reply(&reply(r#"{"id": 1, "error": "busy"}"#)),
        Err(r#"getjobtemplate rejected: "busy""#.to_string())
    );
    assert_eq!(
        job_reply(&reply(r#"{"id": 1, "result": {"height": 3}}"#)),
        Ok(r#"{"height":3}"#.to_string())
    );
    assert_eq!(job_reply(&reply(r#"{"id": 1}"#)), Ok("null".to_string()));
}

#[test]
fn rejection_is_an_outcome() {
    let response = reply(
        r#"{"id": 2, "result": null, "error": {"code": -32503, "message": "Solution Submitted too late"}}"#,
    );
    let error = RpcError {
        code: -32503,
        message: "Solution Submitted too late".to_string(),
        data: None,
    };
    let outcome = submit_outcome(&response, Some(error));
    let SubmitOutcome::Rejected(RpcError { code: -32503, .. }) = &outcome else {
        panic!("a rejection");
    };
    let other = submit_outcome(&reply(r#"{"id": 2, "error": "odd"}"#), None);
    assert_eq!(
        other,
        SubmitOutcome::Rejected(RpcError {
            code: 0,
            message: r#""odd""#.to_string(),
            data: None
        })
    );
    let accepted = submit_outcome(&reply(r#"{"id": 2, "result": "ok"}"#), None);
    assert_eq!(accepted, SubmitOutcome::Accepted(r#""ok""#.to_string()));
}

#[test]
fn expected_rejections() {
    let with = |code: i64| RpcError {
        code,
        message: String::new(),
        data: None,
    };
    assert!(with(-32501).is_expected_share_rejection());
    assert!(with(-32503).is_expected_share_rejection());
    assert!(!with(-32502).is_expected_share_rejection());
    assert!(!with(0).is_expected_share_rejection());
}

#[test]
fn reader_publishes_job_push() {
    let bad = job_from(r#"{"height": 99, "job_id": 0, "difficulty": 1, "pre_pow": "zz"}"#);
    assert_eq!(
        accept_push(bad),
        Err(HexError::InvalidHexCharacter { c: 'z', index: 0 })
    );
    let mut table = RequestTable::new();
    let Incoming::Reply(id, _) =
        read_message(br#"{"id": 9999, "jsonrpc": "2.0", "result": "ignored"}"#)
    else {
        panic!("a reply");
    };
    assert!(!table.settle(id));
    let good = job_from(r#"{"height": 11, "job_id": 0, "difficulty": 1, "pre_pow": "01"}"#);
    assert_eq!(accept_push(good).unwrap().height, 11);
}

#[test]
fn later_push_wins() {
    let at = |height: u64| job_from(&format!(
        r#"{{"height": {height}, "job_id": 0, "difficulty": 1, "pre_pow": "00"}}"#
    ));
    assert!(matches!(choose_job(None, Some(at(3))), JobChoice::Unusable));
    assert!(matches!(choose_job(Some(at(5)), None), JobChoice::Fresh(job) if job.height == 5));
    assert!(
        matches!(choose_job(Some(at(5)), Some(at(5))), JobChoice::Fresh(job) if job.height == 5)
    );
    assert!(
        matches!(choose_job(Some(at(5)), Some(at(6))), JobChoice::Pushed(job) if job.height == 6)
    );
    let mut odd = at(5);
    odd.pre_pow = "0".to_string();
    assert!(matches!(
        choose_job(Some(odd), Some(at(6))),
        JobChoice::BadHeader(HexError::OddLength)
    ));
}

#[test]
fn request_ids_are_fresh() {
    let mut table = RequestTable::new();
    assert!(table.has_ids());
    let first = table.begin();
    let second = table.begin();
    assert_eq!((first, second), (1, 2));
    assert!(table.settle(first));
    assert!(!table.settle(first));
    table.abandon();
    assert!(!table.settle(second));
    assert_eq!(table.begin(), 3);
}

#[test]
fn reconnect_closes_old_reader() {
    let mut link = Link::new();
    let first = link.generation();
    assert!(!link.is_connected());
    link.opened();
    assert!(link.is_connected());
    let second = link.reconnecting();
    assert_eq!((first, second), (1, 2));
    assert!(!link.is_connected());
    link.opened();
    let id = link.begin().unwrap();
    assert!(!link.is_current(first));
    assert!(!link.ended(first));
    assert!(link.is_connected());
    assert!(!link.replied(first, id));
    assert!(link.replied(second, id));
    assert!(!link.replied(second, id));
    let job = job_from(r#"{"height": 10, "job_id": 0, "difficulty": 1, "pre_pow": "00"}"#);
    assert!(matches!(choose_job(Some(job), None), JobChoice::Fresh(job) if job.height == 10));
}

#[test]
fn lost_connection_gives_up_its_requests() {
    let mut link = Link::new();
    link.opened();
    let first = link.begin().unwrap();
    let second = link.begin().unwrap();
    assert_eq!((first, second), (1, 2));
    link.withdraw(first);
    assert!(!link.replied(1, first));
    assert!(link.ended(1));
    assert!(!link.is_connected());
    assert!(!link.replied(1, second));
    assert_eq!(link.begin(), Some(3));
}

#[test]
fn refused_login_leaves_no_connection() {
    let mut link = Link::new();
    link.opened();
    link.refused();
    assert!(!link.is_connected());
    assert!(link.is_current(1));
}
