use idunn::fields::{from_json, MessageMap};
use idunn::peers::Peers;
use idunn::proto::{
    bare_response, body_plan, check_version_line, length_headers_parse, decrypted_body, frame_encrypted_response,
    frame_signed_request, frame_signed_response, handle_client, introduce, ping, read_headers,
    respond, response_plan, signed_body, BodyPlan, Decrypted, ProtoError, ResponsePlan,
};
use idunn::workqueue::{Dispatch, IdunnTask, WorkQueue};

fn lines(v: &[&str]) -> Vec<String> {
    v.iter().map(|s| s.to_string()).collect()
}

fn message(pairs: &[(&str, &str)]) -> MessageMap {
    let mut m = MessageMap::new();
    for (k, v) in pairs {
        m.insert(k.to_string(), v.to_string());
    }
    m
}

#[test]
fn version_line_is_judged() {
    assert_eq!(check_version_line("idunn: 1.0\n"), Ok(()));
    assert_eq!(check_version_line(" \tidunn: 1.0\r\n"), Ok(()));
    assert_eq!(check_version_line("idunn: 2.0\n"), Err(ProtoError::Impossible));
    assert_eq!(check_version_line("hello: 1.0\n"), Err(ProtoError::InvalidHeader));
    assert_eq!(check_version_line("idunn 1.0\n"), Err(ProtoError::InvalidHeader));
    assert_eq!(check_version_line("idunn: 1.0: more\n"), Err(ProtoError::InvalidHeader));
    assert_eq!(check_version_line(""), Err(ProtoError::InvalidHeader));
}

#[test]
fn handle_client_records_the_peer_and_judges_the_line() {
    let mut peers = Peers::new();
    let r = handle_client("192.168.1.2:40000".to_string(), "idunn: 1.0\n", &mut peers);
    assert_eq!(r, Ok(()));
    let p = peers.get("192.168.1.2:40000").unwrap();
    assert_eq!(p.key_id(), "testkey");
    assert!(p.offline());
    let r = handle_client("192.168.1.3:1".to_string(), "nonsense\n", &mut peers);
    assert_eq!(r, Err(ProtoError::InvalidHeader));
    assert_eq!(peers.list().len(), 2);
}

#[test]
fn headers_are_read_up_to_the_empty_line() {
    let h = read_headers(&lines(&[
        "sig-length: 12\n",
        "data-length: 34\n",
        "junk\n",
        "x: a: b\n",
        "sig-length: 13\n",
        "\n",
        "after: 1\n",
    ]));
    assert_eq!(h.get("sig-length").map(|s| s.as_str()), Some("13"));
    assert_eq!(h.get("data-length").map(|s| s.as_str()), Some("34"));
    assert_eq!(h.get("x").map(|s| s.as_str()), Some("a: b"));
    assert!(!h.contains_key("junk"));
    assert!(!h.contains_key("after"));
}

#[test]
fn headers_without_an_end_line_are_all_read() {
    let h = read_headers(&lines(&["a: 1\n", "b: 2"]));
    assert_eq!(h.get("b").map(|s| s.as_str()), Some("2"));
    let h = read_headers(&lines(&["\n", "a: 1\n"]));
    assert!(!h.contains_key("a"));
}

#[test]
fn body_plan_follows_the_length_headers() {
    assert_eq!(
        body_plan(&message(&[("sig-length", "5"), ("data-length", "7")])),
        Ok(BodyPlan::Signed { sig_len: 5, data_len: 7 })
    );
    assert_eq!(
        body_plan(&message(&[("sig-length", "5"), ("data-length", "+7"), ("encrypted-length", "9")])),
        Ok(BodyPlan::Signed { sig_len: 5, data_len: 7 })
    );
    assert_eq!(
        body_plan(&message(&[("sig-length", "0"), ("data-length", "7"), ("encrypted-length", "9")])),
        Ok(BodyPlan::Encrypted { len: 9 })
    );
    assert_eq!(body_plan(&message(&[("encrypted-length", "12")])), Ok(BodyPlan::Encrypted { len: 12 }));
    assert_eq!(body_plan(&message(&[])), Err(ProtoError::Impossible));
    assert_eq!(body_plan(&message(&[("data-length", "3")])), Err(ProtoError::Impossible));
    assert!(!length_headers_parse(&message(&[("sig-length", "x")])));
    assert!(!length_headers_parse(&message(&[("sig-length", "-1")])));
    assert!(!length_headers_parse(&message(&[("encrypted-length", "")])));
    assert!(!length_headers_parse(&message(&[("data-length", "7"), ("encrypted-length", "18446744073709551616")])));
    assert!(length_headers_parse(&message(&[("sig-length", "5"), ("data-length", "+7")])));
    assert!(length_headers_parse(&message(&[])));
    assert_eq!(
        body_plan(&message(&[("encrypted-length", "18446744073709551615")])),
        Ok(BodyPlan::Encrypted { len: 18446744073709551615 })
    );
}

#[test]
fn signed_body_is_utf8_json() {
    let m = signed_body(b"{\"message\":\"ping\"}".to_vec()).unwrap();
    assert_eq!(m.get("message").map(|s| s.as_str()), Some("ping"));
    assert_eq!(signed_body(vec![0xff, 0xfe]).unwrap_err(), ProtoError::NotUtf8);
    let m = signed_body(b"not json".to_vec()).unwrap();
    assert!(!m.contains_key("message"));
}

#[test]
fn decrypted_body_carries_the_sender_key() {
    assert_eq!(decrypted_body(None).unwrap_err(), ProtoError::DecryptFailed);
    let d = Decrypted { data: b"{\"message\":\"introduce\",\"keyid\":\"forged\"}".to_vec(), key_id: "ABCDEF".to_string() };
    let m = decrypted_body(Some(d)).unwrap();
    assert_eq!(m.get("message").map(|s| s.as_str()), Some("introduce"));
    assert_eq!(m.get("keyid").map(|s| s.as_str()), Some("ABCDEF"));
    let d = Decrypted { data: vec![0xc3], key_id: "A".to_string() };
    assert_eq!(decrypted_body(Some(d)).unwrap_err(), ProtoError::NotUtf8);
}

#[test]
fn ping_is_answered_with_pong() {
    let r = ping(&message(&[("message", "ping")]));
    assert_eq!(r.to_json(), "{\"message\":\"pong\"}");
}

#[test]
fn introduce_queues_an_introduction() {
    let mut wq = WorkQueue::new();
    let r = introduce(&message(&[("keyid", "K1"), ("address", "h:1")]), &mut wq);
    assert_eq!(r.to_json(), "{}");
    assert_eq!(wq.queue, vec![IdunnTask::Introduce { keyid: "K1".to_string(), address: "h:1".to_string() }]);
}

#[test]
fn respond_by_message_kind() {
    let mut wq = WorkQueue::new();
    let r = respond(&message(&[("message", "ping")]), &mut wq).unwrap();
    assert_eq!(r.get("message").map(|s| s.as_str()), Some("pong"));
    assert!(wq.queue.is_empty());
    let r = respond(&message(&[("message", "introduce"), ("keyid", "K"), ("address", "a:1")]), &mut wq).unwrap();
    assert!(!r.contains_key("message"));
    assert_eq!(wq.queue.len(), 1);
    let step = wq.worker_step();
    assert_eq!(step.dispatch, Some(Dispatch::Introduce { keyid: "K".to_string(), address: "a:1".to_string() }));
    assert_eq!(respond(&message(&[("source", "x")]), &mut wq).unwrap_err(), ProtoError::NoMessage);
    assert_eq!(respond(&message(&[("message", "where-is")]), &mut wq).unwrap_err(), ProtoError::UnknownMessage);
    assert!(wq.queue.is_empty());
}

#[test]
fn response_plan_mirrors_the_request() {
    let body = message(&[("keyid", "K9")]);
    assert_eq!(
        response_plan(&message(&[("encrypted-length", "3"), ("sig-length", "1")]), &body),
        ResponsePlan::Encrypted { key: "K9".to_string() }
    );
    assert_eq!(response_plan(&message(&[("sig-length", "1")]), &body), ResponsePlan::Signed);
    assert_eq!(response_plan(&message(&[("data-length", "1")]), &body), ResponsePlan::Bare);
}

#[test]
fn responses_are_framed() {
    assert_eq!(bare_response(), b"idunn: 1.0\n".to_vec());
    assert_eq!(frame_encrypted_response(b"abc"), b"idunn: 1.0\nencrypted-length: 3\nabc".to_vec());
    assert_eq!(
        frame_signed_response("{}", b"SIG"),
        b"idunn: 1.0\nsig-length: 3\ndata-length: 2\n\nSIG{}".to_vec()
    );
    assert_eq!(
        frame_signed_response("\u{e9}", &[0u8; 12]),
        [b"idunn: 1.0\nsig-length: 12\ndata-length: 2\n\n".to_vec(), vec![0u8; 12], b"\xc3\xa9".to_vec()].concat()
    );
}

#[test]
fn a_framed_signed_request_is_understood() {
    let data = "{\"message\":\"ping\",\"source\":\"server\"}";
    let sig = vec![7u8; 120];
    let bytes = frame_signed_request(data, &sig);
    let head = b"idunn: 1.0\nsig-length: 120\ndata-length: 36\n\n";
    assert_eq!(&bytes[..head.len()], &head[..]);
    assert_eq!(&bytes[head.len()..head.len() + 120], &sig[..]);
    assert_eq!(&bytes[head.len() + 120..], data.as_bytes());

    let text = String::from_utf8(bytes[..head.len()].to_vec()).unwrap();
    let mut ls: Vec<String> = text.split_inclusive('\n').map(|s| s.to_string()).collect();
    assert_eq!(check_version_line(&ls.remove(0)), Ok(()));
    let h = read_headers(&ls);
    assert_eq!(body_plan(&h), Ok(BodyPlan::Signed { sig_len: 120, data_len: 36 }));
    let m = signed_body(bytes[head.len() + 120..].to_vec()).unwrap();
    assert_eq!(m.get("source").map(|s| s.as_str()), Some("server"));
}

#[test]
fn errors_have_the_texts_of_the_protocol() {
    assert_eq!(ProtoError::InvalidHeader.message(), "Invalid header; expected: idunn: <version>");
    assert_eq!(ProtoError::Impossible.message(), "impossible");
    assert_eq!(ProtoError::DecryptFailed.message(), "failed");
    assert_eq!(ProtoError::NoMessage.message(), "no 'message' field in request");
    assert_eq!(ProtoError::UnknownMessage.message(), "failed to match message type");
}

#[test]
fn from_json_reads_a_flat_object() {
    let m = from_json("{\"message\": \"ping\", \"keyid\": \"AB\"}");
    assert_eq!(m.get("message").map(|s| s.as_str()), Some("ping"));
    assert_eq!(m.get("keyid").map(|s| s.as_str()), Some("AB"));
    assert!(!from_json("not json").contains_key("message"));
    assert!(!from_json("{\"a\": 1}").contains_key("a"));
    assert_eq!(from_json("{}").to_json(), "{}");
}

#[test]
fn a_framed_signed_response_is_understood() {
    let data = "{\"message\":\"pong\"}";
    let sig = vec![9u8; 40];
    let bytes = frame_signed_response(data, &sig);
    let head = b"idunn: 1.0\nsig-length: 40\ndata-length: 18\n\n";
    assert_eq!(&bytes[..head.len()], &head[..]);
    let text = String::from_utf8(bytes[..head.len()].to_vec()).unwrap();
    let mut ls: Vec<String> = text.split_inclusive('\n').map(|s| s.to_string()).collect();
    assert_eq!(check_version_line(&ls.remove(0)), Ok(()));
    let h = read_headers(&ls);
    assert!(length_headers_parse(&h));
    assert_eq!(body_plan(&h), Ok(BodyPlan::Signed { sig_len: 40, data_len: 18 }));
    assert_eq!(&bytes[head.len()..head.len() + 40], &sig[..]);
    let m = signed_body(bytes[head.len() + 40..].to_vec()).unwrap();
    assert_eq!(m.get("message").map(|s| s.as_str()), Some("pong"));
}
