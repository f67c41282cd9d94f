//! The idunn wire protocol, version 1.0.
//!
//! A request is a version line `idunn: 1.0`, header lines `key: value`
//! ended by an empty line, and a body whose shape the length headers give:
//! a detached signature followed by JSON data (`sig-length`, `data-length`),
//! or an OpenPGP message (`encrypted-length`). The body's JSON object names
//! the request in its `message` field. A response repeats the version line,
//! then carries the JSON answer encrypted or signed the way the request was.

use vstd::prelude::*;
use vstd::utf8::{encode_utf8, valid_utf8, decode_utf8};
use vstd::slice::slice_to_vec;
use crate::text::{
    is_white, trim_front, trim_back, sep_at, first_sep_at, is_digit,
    lemma_decimal_digits, lemma_first_sep_unique, law_length_roundtrip,
    trim, split_once, has_sep, parse_usize, decimal, chars_of, trim_chars, split_once_chars,
    find_sep, chars_eq, parse_length, push_decimal, string_from_chars, string_from_utf8,
};
use crate::fields::{MessageMap, json_message};
pub use crate::fields::from_json;
use crate::workqueue::{IdunnTask, WorkQueue, Dispatch, worker_step_of, BUSY_PAUSE_MS};
use crate::peers::Peers;

verus! {

/// Why a request is refused.
#[derive(Debug, Clone, Copy, PartialEq, Eq, Structural)]
pub enum ProtoError {
    /// The version line is not `idunn: <version>`.
    InvalidHeader,
    /// A version other than 1.0, or a body with no length header above zero.
    Impossible,
    /// Body text that is not UTF-8.
    NotUtf8,
    /// The encrypted body could not be decrypted.
    DecryptFailed,
    /// The body has no `message` field.
    NoMessage,
    /// The `message` field names no request that this node answers.
    UnknownMessage,
}

/// The text each refusal is reported with.
pub open spec fn error_text(e: ProtoError) -> Seq<char> {
    match e {
        ProtoError::InvalidHeader => "Invalid header; expected: idunn: <version>"@,
        ProtoError::Impossible => "impossible"@,
        ProtoError::NotUtf8 => "body is not valid UTF-8"@,
        ProtoError::DecryptFailed => "failed"@,
        ProtoError::NoMessage => "no 'message' field in request"@,
        ProtoError::UnknownMessage => "failed to match message type"@,
    }
}

impl ProtoError {
    pub fn message(&self) -> (r: String)
        ensures
            r@ == error_text(*self),
    {
        match self {
            ProtoError::InvalidHeader => "Invalid header; expected: idunn: <version>".to_owned(),
            ProtoError::Impossible => "impossible".to_owned(),
            ProtoError::NotUtf8 => "body is not valid UTF-8".to_owned(),
            ProtoError::DecryptFailed => "failed".to_owned(),
            ProtoError::NoMessage => "no 'message' field in request".to_owned(),
            ProtoError::UnknownMessage => "failed to match message type".to_owned(),
        }
    }
}

// The version line.

/// How the first line of a request is judged: it is trimmed and split at
/// `": "`; there must be exactly two parts, the first `idunn`; version
/// `1.0` is accepted and any other refused.
pub open spec fn version_line_result(line: Seq<char>) -> Result<(), ProtoError> {
    match split_once(trim(line)) {
        None => Err(ProtoError::InvalidHeader),
        Some((a, b)) => if has_sep(b) || a != "idunn"@ {
            Err(ProtoError::InvalidHeader)
        } else if b == "1.0"@ {
            Ok(())
        } else {
            Err(ProtoError::Impossible)
        },
    }
}

/// Judges the first line of a request.
pub fn check_version_line(line: &str) -> (r: Result<(), ProtoError>)
    ensures
        r == version_line_result(line@),
{
    let cs = chars_of(line);
    let t = trim_chars(&cs);
    match split_once_chars(&t) {
        None => Err(ProtoError::InvalidHeader),
        Some((a, b)) => {
            let word = chars_of("idunn");
            if find_sep(&b).is_some() || !chars_eq(&a, &word) {
                Err(ProtoError::InvalidHeader)
            } else {
                let version = chars_of("1.0");
                if chars_eq(&b, &version) {
                    Ok(())
                } else {
                    Err(ProtoError::Impossible)
                }
            }
        },
    }
}

/// The first steps with a new client: it is recorded as a peer (offline,
/// under a placeholder key), then the first line it sent is judged.
pub fn handle_client(peer_addr: String, version_line: &str, peers: &mut Peers) -> (r: Result<
    (),
    ProtoError,
>)
    requires
        old(peers).wf(),
    ensures
        r == version_line_result(version_line@),
        final(peers).wf(),
        final(peers)@.dom() == old(peers)@.dom().insert(peer_addr@),
        final(peers)@.remove(peer_addr@) == old(peers)@.remove(peer_addr@),
        final(peers)@[peer_addr@].0 == peer_addr@,
        final(peers)@[peer_addr@].1 == "testkey"@,
        final(peers)@[peer_addr@].3 == true,
        0 <= final(peers)@[peer_addr@].2.nsec < 1_000_000_000,
{
    peers.add(peer_addr, "testkey".to_owned(), true);
    check_version_line(version_line)
}

// Header lines.

/// A header line that ends the headers: one byte long (a bare newline).
pub open spec fn is_end_line(line: Seq<char>) -> bool {
    encode_utf8(line).len() == 1
}

/// The header lines before the one that ends them.
pub open spec fn header_part(lines: Seq<Seq<char>>) -> Seq<Seq<char>>
    decreases lines.len(),
{
    if lines.len() == 0 || is_end_line(lines[0]) {
        Seq::empty()
    } else {
        seq![lines[0]] + header_part(lines.drop_first())
    }
}

/// The fields that header lines give, each trimmed and split at its first
/// `": "`; lines without `": "` give nothing, a later line wins.
pub open spec fn header_map(lines: Seq<Seq<char>>) -> Map<Seq<char>, Seq<char>>
    decreases lines.len(),
{
    if lines.len() == 0 {
        Map::empty()
    } else {
        let m = header_map(lines.drop_last());
        match split_once(trim(lines.last())) {
            Some((k, v)) => m.insert(k, v),
            None => m,
        }
    }
}

/// The headers that a request's lines after the version line declare.
pub open spec fn headers_of(lines: Seq<Seq<char>>) -> Map<Seq<char>, Seq<char>> {
    header_map(header_part(lines))
}

proof fn lemma_header_part_step(ls: Seq<Seq<char>>, i: int)
    requires
        0 <= i < ls.len(),
    ensures
        header_part(ls.skip(i)) == if is_end_line(ls[i]) {
            Seq::<Seq<char>>::empty()
        } else {
            seq![ls[i]] + header_part(ls.skip(i + 1))
        },
{
    assert(ls.skip(i).drop_first() =~= ls.skip(i + 1));
    assert(ls.skip(i)[0] == ls[i]);
}

proof fn lemma_encode_len(s: Seq<char>)
    ensures
        encode_utf8(s).len() >= s.len(),
    decreases s.len(),
{
    if s.len() > 0 {
        lemma_encode_len(s.drop_first());
    }
}

proof fn lemma_one_byte_line(s: Seq<char>)
    ensures
        is_end_line(s) <==> (s.len() == 1 && (s[0] as u32) <= 0x7f),
{
    if s.len() >= 1 {
        lemma_encode_len(s.drop_first());
        assert(encode_utf8(s) == vstd::utf8::encode_scalar(s[0] as u32) + encode_utf8(s.drop_first()));
        if s.len() == 1 {
            assert(s.drop_first() =~= Seq::<char>::empty());
        }
    }
}

/// Reads the header lines of a request, up to the line that ends them (a
/// line one byte long). Where the lines run out before such a line, as when
/// the stream ends, all of them count: this function then returns, where a
/// server that kept reading for the end line would wait for ever.
pub fn read_headers(lines: &Vec<String>) -> (r: MessageMap)
    ensures
        r.wf(),
        r@ == headers_of(lines@.map_values(|l: String| l@)),
{
    let ghost ls = lines@.map_values(|l: String| l@);
    let mut r = MessageMap::new();
    let n = lines.len();
    let mut i: usize = 0;
    assert(ls.skip(0) =~= ls);
    assert(ls.take(0) =~= Seq::<Seq<char>>::empty());
    while i < n
        invariant_except_break
            i <= n,
            n == ls.len(),
            ls == lines@.map_values(|l: String| l@),
            header_part(ls) == ls.take(i as int) + header_part(ls.skip(i as int)),
            r.wf(),
            r@ == header_map(ls.take(i as int)),
        ensures
            i <= n,
            r.wf(),
            header_part(ls) == ls.take(i as int),
            r@ == header_map(ls.take(i as int)),
        decreases n - i,
    {
        let line = lines[i].as_str();
        proof {
            lemma_header_part_step(ls, i as int);
            lemma_one_byte_line(line@);
        }
        let cs = chars_of(line);
        if cs.len() == 1 && (cs[0] as u32) <= 0x7f {
            assert(ls[i as int] == line@);
            assert(is_end_line(ls[i as int]));
            assert(header_part(ls.skip(i as int)) == Seq::<Seq<char>>::empty());
            assert(header_part(ls) =~= ls.take(i as int));
            break;
        }
        let t = trim_chars(&cs);
        match split_once_chars(&t) {
            Some((k, v)) => {
                let ks = string_from_chars(&k);
                let vs = string_from_chars(&v);
                r.insert(ks, vs);
            },
            None => {},
        }
        proof {
            assert(ls.take(i + 1).drop_last() =~= ls.take(i as int));
            assert(ls.take(i + 1).last() == ls[i as int]);
            assert(ls.take(i + 1) =~= ls.take(i as int) + seq![ls[i as int]]);
        }
        i = i + 1;
    }
    proof {
        if i == n {
            assert(ls.skip(n as int) =~= Seq::<Seq<char>>::empty());
            assert(header_part(ls) =~= ls.take(i as int));
        }
    }
    r
}


// The body.

/// The length that a header declares: 0 when the header is absent, `None`
/// when its value does not parse as a `usize`.
pub open spec fn declared_length(h: Map<Seq<char>, Seq<char>>, key: Seq<char>) -> Option<usize> {
    if h.contains_key(key) {
        parse_usize(h[key])
    } else {
        Some(0usize)
    }
}

/// How the body of a request is to be read.
#[derive(Debug, Clone, Copy, PartialEq, Eq, Structural)]
pub enum BodyPlan {
    /// A detached signature of `sig_len` bytes, then `data_len` bytes of
    /// signed JSON data.
    Signed { sig_len: usize, data_len: usize },
    /// An OpenPGP message of `len` bytes whose plaintext is JSON data.
    Encrypted { len: usize },
}

/// Every length header present parses as a `usize`. (Where one does not,
/// the server stops: it does not read the body.)
pub open spec fn lengths_parse(h: Map<Seq<char>, Seq<char>>) -> bool {
    &&& declared_length(h, "sig-length"@) is Some
    &&& declared_length(h, "data-length"@) is Some
    &&& declared_length(h, "encrypted-length"@) is Some
}

/// The body a request's headers announce: signed data when both the
/// signature and data lengths are above zero, else encrypted data when its
/// length is above zero, else none, which is refused.
pub open spec fn body_plan_of(h: Map<Seq<char>, Seq<char>>) -> Result<BodyPlan, ProtoError>
    recommends
        lengths_parse(h),
{
    let sl = declared_length(h, "sig-length"@)->Some_0;
    let dl = declared_length(h, "data-length"@)->Some_0;
    let el = declared_length(h, "encrypted-length"@)->Some_0;
    if sl > 0 && dl > 0 {
        Ok(BodyPlan::Signed { sig_len: sl, data_len: dl })
    } else if el > 0 {
        Ok(BodyPlan::Encrypted { len: el })
    } else {
        Err(ProtoError::Impossible)
    }
}

fn length_header(headers: &MessageMap, key: &str) -> (r: Option<usize>)
    requires
        headers.wf(),
    ensures
        r == declared_length(headers@, key@),
{
    match headers.get(key) {
        None => Some(0),
        Some(v) => {
            let cs = chars_of(v.as_str());
            parse_length(&cs)
        },
    }
}

/// Whether every length header present parses as a `usize`, as
/// `body_plan` needs.
pub fn length_headers_parse(headers: &MessageMap) -> (r: bool)
    requires
        headers.wf(),
    ensures
        r == lengths_parse(headers@),
{
    length_header(headers, "sig-length").is_some() && length_header(headers, "data-length").is_some()
        && length_header(headers, "encrypted-length").is_some()
}

/// Decides from the headers how the body is to be read. Headers that
/// declare no body give the refusal `Impossible`.
pub fn body_plan(headers: &MessageMap) -> (r: Result<BodyPlan, ProtoError>)
    requires
        headers.wf(),
        lengths_parse(headers@),
    ensures
        r == body_plan_of(headers@),
{
    let sl = length_header(headers, "sig-length").unwrap();
    let dl = length_header(headers, "data-length").unwrap();
    let el = length_header(headers, "encrypted-length").unwrap();
    if sl > 0 && dl > 0 {
        Ok(BodyPlan::Signed { sig_len: sl, data_len: dl })
    } else if el > 0 {
        Ok(BodyPlan::Encrypted { len: el })
    } else {
        Err(ProtoError::Impossible)
    }
}

/// The message that signed body data carries: the data is UTF-8 JSON.
/// Data that is not UTF-8 is refused with `NotUtf8`; the server stops
/// there, as it would on a failed `String::from_utf8(..).unwrap()`.
pub fn signed_body(data: Vec<u8>) -> (r: Result<MessageMap, ProtoError>)
    ensures
        match r {
            Ok(m) => valid_utf8(data@) && m.wf() && m@ == json_message(decode_utf8(data@)),
            Err(e) => !valid_utf8(data@) && e == ProtoError::NotUtf8,
        },
{
    match string_from_utf8(data) {
        None => Err(ProtoError::NotUtf8),
        Some(text) => Ok(from_json(text.as_str())),
    }
}

/// What decrypting an encrypted body gave: the plaintext and the key id of
/// its first recipient.
#[derive(Debug, Clone)]
pub struct Decrypted {
    pub data: Vec<u8>,
    pub key_id: String,
}

/// The message that an encrypted body carries: the decrypted JSON, with the
/// sender's key id added under `keyid`. `None` stands for a failed
/// decryption. A plaintext that is not UTF-8 is refused with `NotUtf8`; the
/// server stops there, as it would on a failed UTF-8 conversion unwrapped.
pub fn decrypted_body(outcome: Option<Decrypted>) -> (r: Result<MessageMap, ProtoError>)
    ensures
        match outcome {
            None => r == Err::<MessageMap, ProtoError>(ProtoError::DecryptFailed),
            Some(d) => match r {
                Ok(m) => valid_utf8(d.data@) && m.wf() && m@ == json_message(
                    decode_utf8(d.data@),
                ).insert("keyid"@, d.key_id@),
                Err(e) => !valid_utf8(d.data@) && e == ProtoError::NotUtf8,
            },
        },
{
    match outcome {
        None => Err(ProtoError::DecryptFailed),
        Some(d) => {
            let key = d.key_id;
            match string_from_utf8(d.data) {
                None => Err(ProtoError::NotUtf8),
                Some(text) => {
                    let mut m = from_json(text.as_str());
                    m.insert("keyid".to_owned(), key);
                    Ok(m)
                },
            }
        },
    }
}

// Answering a request.

/// A body whose `message` field says `kind`.
pub open spec fn says(body: Map<Seq<char>, Seq<char>>, kind: Seq<char>) -> bool {
    body.contains_key("message"@) && body["message"@] == kind
}

/// The answer to a ping.
pub open spec fn pong() -> Map<Seq<char>, Seq<char>> {
    Map::<Seq<char>, Seq<char>>::empty().insert("message"@, "pong"@)
}

/// Answers a ping.
pub fn ping(hin: &MessageMap) -> (r: MessageMap)
    ensures
        r.wf(),
        r@ == pong(),
{
    let mut hout = MessageMap::new();
    hout.insert("message".to_owned(), "pong".to_owned());
    hout
}

/// An introduction names the key id and the address of the peer.
pub open spec fn introduction_complete(body: Map<Seq<char>, Seq<char>>) -> bool {
    body.contains_key("keyid"@) && body.contains_key("address"@)
}

/// The task that an introduction leaves for the worker.
pub open spec fn introduction_task(t: IdunnTask, body: Map<Seq<char>, Seq<char>>) -> bool {
    match t {
        IdunnTask::Introduce { keyid, address } => keyid@ == body["keyid"@] && address@
            == body["address"@],
        _ => false,
    }
}

/// Takes an introduction: queues a task to introduce this node to the named
/// peer, and answers with an empty message.
pub fn introduce(hin: &MessageMap, wq: &mut WorkQueue) -> (r: MessageMap)
    requires
        hin.wf(),
        introduction_complete(hin@),
    ensures
        r.wf(),
        r@ == Map::<Seq<char>, Seq<char>>::empty(),
        final(wq).queue@.len() == old(wq).queue@.len() + 1,
        final(wq).queue@.drop_last() == old(wq).queue@,
        introduction_task(final(wq).queue@.last(), hin@),
{
    let hout = MessageMap::new();
    let k = hin.get("keyid").unwrap();
    let a = hin.get("address").unwrap();
    let it = IdunnTask::Introduce { keyid: k.clone(), address: a.clone() };
    wq.insert(it);
    proof {
        assert(final(wq).queue@.drop_last() =~= old(wq).queue@);
    }
    hout
}

/// Answers a request by its `message` field: `ping` is answered with a
/// pong, `introduce` queues an introduction; anything else is refused.
pub fn respond(body: &MessageMap, wq: &mut WorkQueue) -> (r: Result<MessageMap, ProtoError>)
    requires
        body.wf(),
        says(body@, "introduce"@) ==> introduction_complete(body@),
    ensures
        !body@.contains_key("message"@) ==> r == Err::<MessageMap, ProtoError>(
            ProtoError::NoMessage,
        ) && final(wq).queue@ == old(wq).queue@,
        says(body@, "ping"@) ==> (r matches Ok(m) && m.wf() && m@ == pong()) 
            && final(wq).queue@ == old(wq).queue@,
        says(body@, "introduce"@) ==> (r matches Ok(m) && m.wf() && m@ == Map::<
            Seq<char>,
            Seq<char>,
        >::empty()) && final(wq).queue@.len() == old(wq).queue@.len() + 1 
            && final(wq).queue@.drop_last() == old(wq).queue@ && introduction_task(final(wq).queue@.last(), body@),
        body@.contains_key("message"@) && !says(body@, "ping"@) && !says(body@, "introduce"@)
            ==> r == Err::<MessageMap, ProtoError>(ProtoError::UnknownMessage) && final(wq).queue@
            == old(wq).queue@,
{
    proof {
        reveal_strlit("ping");
        reveal_strlit("introduce");
    }
    match body.get("message") {
        None => Err(ProtoError::NoMessage),
        Some(mtype) => {
            let cs = chars_of(mtype.as_str());
            let ping_word = chars_of("ping");
            let introduce_word = chars_of("introduce");
            if chars_eq(&cs, &ping_word) {
                assert("ping"@.len() != "introduce"@.len());
                assert(!says(body@, "introduce"@));
                Ok(ping(body))
            } else if chars_eq(&cs, &introduce_word) {
                Ok(introduce(body, wq))
            } else {
                Err(ProtoError::UnknownMessage)
            }
        },
    }
}


/// How the answer is sent back.
#[derive(Debug, Clone, PartialEq, Eq)]
pub enum ResponsePlan {
    /// Encrypted to `key`, because the request came encrypted.
    Encrypted { key: String },
    /// Signed, because the request came signed.
    Signed,
    /// Only the version line.
    Bare,
}

/// Decides how to answer: an encrypted request is answered encrypted to the
/// key id that its body carries, a signed one is answered signed.
pub fn response_plan(headers: &MessageMap, body: &MessageMap) -> (r: ResponsePlan)
    requires
        headers.wf(),
        body.wf(),
        headers@.contains_key("encrypted-length"@) ==> body@.contains_key("keyid"@),
    ensures
        headers@.contains_key("encrypted-length"@) ==> (r matches ResponsePlan::Encrypted { key }
            && key@ == body@["keyid"@]),
        !headers@.contains_key("encrypted-length"@) && headers@.contains_key("sig-length"@) ==> r
            == ResponsePlan::Signed,
        !headers@.contains_key("encrypted-length"@) && !headers@.contains_key("sig-length"@) ==> r
            == ResponsePlan::Bare,
{
    if headers.contains_key("encrypted-length") {
        let key = body.get("keyid").unwrap().clone();
        ResponsePlan::Encrypted { key }
    } else if headers.contains_key("sig-length") {
        ResponsePlan::Signed
    } else {
        ResponsePlan::Bare
    }
}

// Framing.

/// The line every message starts with.
pub open spec fn version_text() -> Seq<char> {
    "idunn: 1.0\n"@
}

/// A header line `name: n` with `n` in decimal.
pub open spec fn length_line(name: Seq<char>, n: nat) -> Seq<char> {
    name + ": "@ + decimal(n) + "\n"@
}

fn push_str(out: &mut Vec<char>, s: &str)
    ensures
        final(out)@ == old(out)@ + s@,
{
    let mut cs = chars_of(s);
    out.append(&mut cs);
}

fn push_length_line(out: &mut Vec<char>, name: &str, n: usize)
    ensures
        final(out)@ == old(out)@ + length_line(name@, n as nat),
{
    push_str(out, name);
    push_str(out, ": ");
    push_decimal(n, out);
    push_str(out, "\n");
    assert(out@ =~= old(out)@ + length_line(name@, n as nat));
}

/// The UTF-8 bytes of the characters `cs`, followed by `payload`.
fn bytes_then(cs: &[char], payload: &[u8]) -> (r: Vec<u8>)
    ensures
        r@ == encode_utf8(cs@) + payload@,
{
    let text = string_from_chars(cs);
    let mut r = slice_to_vec(text.as_str().as_bytes());
    let mut p = slice_to_vec(payload);
    r.append(&mut p);
    r
}

/// The answer that only repeats the version line.
pub fn bare_response() -> (r: Vec<u8>)
    ensures
        r@ == encode_utf8(version_text()),
{
    let mut head: Vec<char> = Vec::new();
    push_str(&mut head, "idunn: 1.0\n");
    let empty: Vec<u8> = Vec::new();
    let r = bytes_then(&head, empty.as_slice());
    assert(head@ =~= version_text());
    assert(r@ =~= encode_utf8(version_text()));
    r
}

/// An encrypted answer: the version line, `encrypted-length`, then the
/// encrypted bytes.
pub fn frame_encrypted_response(enc: &[u8]) -> (r: Vec<u8>)
    ensures
        r@ == encode_utf8(version_text() + length_line("encrypted-length"@, enc@.len())) + enc@,
{
    let mut head: Vec<char> = Vec::new();
    push_str(&mut head, "idunn: 1.0\n");
    push_length_line(&mut head, "encrypted-length", enc.len());
    assert(head@ =~= version_text() + length_line("encrypted-length"@, enc@.len()));
    bytes_then(&head, enc)
}

/// The head of a signed answer: the version line, `sig-length`,
/// `data-length` and the empty line that ends the headers, the layout the
/// protocol gives for every signed message.
pub open spec fn signed_response_head(sig_len: nat, data_len: nat) -> Seq<char> {
    version_text() + length_line("sig-length"@, sig_len) + length_line("data-length"@, data_len)
        + "\n"@
}

/// A signed answer: its head, then the detached signature, then the JSON
/// data it signs.
pub fn frame_signed_response(json_text: &str, sig: &[u8]) -> (r: Vec<u8>)
    ensures
        r@ == encode_utf8(signed_response_head(sig@.len(), encode_utf8(json_text@).len())) + sig@
            + encode_utf8(json_text@),
{
    let data = json_text.as_bytes();
    let mut head: Vec<char> = Vec::new();
    push_str(&mut head, "idunn: 1.0\n");
    push_length_line(&mut head, "sig-length", sig.len());
    push_length_line(&mut head, "data-length", data.len());
    push_str(&mut head, "\n");
    let ghost h = signed_response_head(sig@.len(), encode_utf8(json_text@).len());
    assert(head@ =~= h);
    let mut payload = slice_to_vec(sig);
    let mut d = slice_to_vec(data);
    payload.append(&mut d);
    let r = bytes_then(&head, payload.as_slice());
    assert(r@ =~= encode_utf8(h) + sig@ + encode_utf8(json_text@));
    r
}

/// The head of a signed request: the version line, `sig-length`,
/// `data-length` and the empty line that ends the headers.
pub open spec fn signed_request_head(sig_len: nat, data_len: nat) -> Seq<char> {
    version_text() + length_line("sig-length"@, sig_len) + length_line("data-length"@, data_len)
        + "\n"@
}

/// A signed request: its head, then the detached signature, then the data.
pub fn frame_signed_request(data: &str, sig: &[u8]) -> (r: Vec<u8>)
    ensures
        r@ == encode_utf8(signed_request_head(sig@.len(), encode_utf8(data@).len())) + sig@
            + encode_utf8(data@),
{
    let bytes = data.as_bytes();
    let mut head: Vec<char> = Vec::new();
    push_str(&mut head, "idunn: 1.0\n");
    push_length_line(&mut head, "sig-length", sig.len());
    push_length_line(&mut head, "data-length", bytes.len());
    push_str(&mut head, "\n");
    let ghost h = signed_request_head(sig@.len(), encode_utf8(data@).len());
    assert(head@ =~= h);
    let mut payload = slice_to_vec(sig);
    let mut d = slice_to_vec(bytes);
    payload.append(&mut d);
    let r = bytes_then(&head, payload.as_slice());
    assert(r@ =~= encode_utf8(h) + sig@ + encode_utf8(data@));
    r
}


// What a server makes of a signed request.

/// The lines a server reads from the head of a signed request.
pub open spec fn signed_request_lines(sig_len: nat, data_len: nat) -> Seq<Seq<char>> {
    seq![
        version_text(),
        length_line("sig-length"@, sig_len),
        length_line("data-length"@, data_len),
        "\n"@,
    ]
}

proof fn lemma_length_line_field(name: Seq<char>, n: nat)
    requires
        name.len() > 0,
        !is_white(name[0]),
        forall|i: int| 0 <= i < name.len() ==> #[trigger] name[i] != ':',
    ensures
        split_once(trim(length_line(name, n))) == Some((name, decimal(n))),
        !is_end_line(length_line(name, n)),
{
    reveal_strlit(": ");
    reveal_strlit("\n");
    let line = length_line(name, n);
    let core = name + ": "@ + decimal(n);
    lemma_decimal_digits(n);
    let d = decimal(n);
    assert(is_digit(d[d.len() - 1]));
    assert(line =~= core.push('\n'));
    assert(core.len() > 0 && core[0] == name[0]);
    assert(trim_front(line) == line);
    assert(line.drop_last() =~= core);
    assert(core.last() == d[d.len() - 1]);
    assert(trim_back(line) == trim_back(core));
    assert(trim_back(core) == core);
    assert(trim(line) == core);
    let i = name.len() as int;
    assert(sep_at(core, i));
    assert forall|j: int| 0 <= j < i implies !#[trigger] sep_at(core, j) by {
        assert(core[j] == name[j]);
    }
    assert(first_sep_at(core, i));
    lemma_first_sep_unique(core, i);
    assert(core.take(i) =~= name);
    assert(core.skip(i + 2) =~= d);
    lemma_encode_len(line);
    lemma_one_byte_line(line);
}

proof fn lemma_version_line()
    ensures
        version_line_result(version_text()) == Ok::<(), ProtoError>(()),
{
    reveal_strlit("idunn: 1.0\n");
    reveal_strlit("idunn");
    reveal_strlit("1.0");
    let line = version_text();
    let core = line.drop_last();
    assert(line.last() == '\n');
    assert(trim_front(line) == line);
    assert(trim_back(core) == core);
    assert(trim(line) == core);
    assert(sep_at(core, 5));
    assert forall|j: int| 0 <= j < 5 implies !#[trigger] sep_at(core, j) by {}
    lemma_first_sep_unique(core, 5);
    assert(core.take(5) =~= "idunn"@);
    assert(core.skip(7) =~= "1.0"@);
    assert(!has_sep("1.0"@)) by {
        assert forall|j: int| !#[trigger] sep_at("1.0"@, j) by {}
    }
}

/// A server understands a signed request as it was framed: the head of
/// `frame_signed_request` is the version line, the two length lines and the
/// empty line; the server accepts the version, reads exactly the two
/// lengths from the headers, and plans to read a signature and data of
/// those lengths.
pub proof fn law_signed_request_understood(sig_len: usize, data_len: usize)
    requires
        sig_len > 0,
        data_len > 0,
    ensures
        ({
            let lines = signed_request_lines(sig_len as nat, data_len as nat);
            let headers = headers_of(lines.drop_first());
            &&& signed_request_head(sig_len as nat, data_len as nat) == lines[0] + lines[1]
                + lines[2] + lines[3]
            &&& version_line_result(lines[0]) == Ok::<(), ProtoError>(())
            &&& headers == Map::<Seq<char>, Seq<char>>::empty().insert(
                "sig-length"@,
                decimal(sig_len as nat),
            ).insert("data-length"@, decimal(data_len as nat))
            &&& lengths_parse(headers)
            &&& body_plan_of(headers) == Ok::<BodyPlan, ProtoError>(
                BodyPlan::Signed { sig_len, data_len },
            )
        }),
{
    reveal_strlit("sig-length");
    reveal_strlit("data-length");
    reveal_strlit("encrypted-length");
    reveal_strlit("\n");
    let lines = signed_request_lines(sig_len as nat, data_len as nat);
    let rest = lines.drop_first();
    let l1 = length_line("sig-length"@, sig_len as nat);
    let l2 = length_line("data-length"@, data_len as nat);
    assert("sig-length"@[0] == 's');
    assert("data-length"@[0] == 'd');
    lemma_length_line_field("sig-length"@, sig_len as nat);
    lemma_length_line_field("data-length"@, data_len as nat);
    lemma_version_line();
    lemma_one_byte_line("\n"@);
    assert(rest =~= seq![l1, l2, "\n"@]);
    assert(rest.drop_first() =~= seq![l2, "\n"@]);
    assert(rest.drop_first().drop_first() =~= seq!["\n"@]);
    assert(header_part(seq!["\n"@]) == Seq::<Seq<char>>::empty());
    assert(header_part(rest.drop_first()) =~= seq![l2]);
    assert(header_part(rest) =~= seq![l1, l2]);
    let part = seq![l1, l2];
    assert(part.drop_last() =~= seq![l1]);
    assert(seq![l1].drop_last() =~= Seq::<Seq<char>>::empty());
    let h = headers_of(rest);
    assert(header_map(Seq::<Seq<char>>::empty()) == Map::<Seq<char>, Seq<char>>::empty());
    assert(seq![l1].last() == l1);
    assert(header_map(seq![l1]) == Map::<Seq<char>, Seq<char>>::empty().insert(
        "sig-length"@,
        decimal(sig_len as nat),
    ));
    assert(part.last() == l2);
    assert(header_map(part) == header_map(seq![l1]).insert("data-length"@, decimal(data_len as nat)));
    assert(h == Map::<Seq<char>, Seq<char>>::empty().insert("sig-length"@, decimal(sig_len as nat)).insert(
        "data-length"@,
        decimal(data_len as nat),
    ));
    law_length_roundtrip(sig_len);
    law_length_roundtrip(data_len);
    assert("sig-length"@ != "data-length"@);
    assert("encrypted-length"@ != "data-length"@);
    assert("encrypted-length"@ != "sig-length"@);
    assert(declared_length(h, "sig-length"@) == Some(sig_len));
    assert(declared_length(h, "data-length"@) == Some(data_len));
    assert(declared_length(h, "encrypted-length"@) == Some(0usize));
}


/// A server understands a signed answer as it was framed: the head of
/// `frame_signed_response` is the version line, the two length lines and
/// the empty line; a reader accepts the version, reads exactly the two
/// lengths from the headers, and plans to read a signature and data of
/// those lengths.
pub proof fn law_signed_response_understood(sig_len: usize, data_len: usize)
    requires
        sig_len > 0,
        data_len > 0,
    ensures
        ({
            let lines = signed_request_lines(sig_len as nat, data_len as nat);
            let headers = headers_of(lines.drop_first());
            &&& signed_response_head(sig_len as nat, data_len as nat) == lines[0] + lines[1]
                + lines[2] + lines[3]
            &&& version_line_result(lines[0]) == Ok::<(), ProtoError>(())
            &&& headers == Map::<Seq<char>, Seq<char>>::empty().insert(
                "sig-length"@,
                decimal(sig_len as nat),
            ).insert("data-length"@, decimal(data_len as nat))
            &&& lengths_parse(headers)
            &&& body_plan_of(headers) == Ok::<BodyPlan, ProtoError>(
                BodyPlan::Signed { sig_len, data_len },
            )
        }),
{
    law_signed_request_understood(sig_len, data_len);
}

/// An accepted introduction reaches the worker: once `respond` has queued
/// it, the worker's next round introduces this node to the key id and the
/// address that the request named, and leaves the queue as it was before
/// the request.
pub proof fn law_introduction_reaches_worker(
    before: Seq<IdunnTask>,
    after: Seq<IdunnTask>,
    body: Map<Seq<char>, Seq<char>>,
)
    requires
        after.len() == before.len() + 1,
        after.drop_last() == before,
        introduction_task(after.last(), body),
    ensures
        worker_step_of(after).0 == before,
        worker_step_of(after).2 == BUSY_PAUSE_MS,
        worker_step_of(after).1 matches Some(Dispatch::Introduce { keyid, address })
            && keyid@ == body["keyid"@] && address@ == body["address"@],
{
}


/// A header line `k: v`, as a client writes it.
pub open spec fn field_line(k: Seq<char>, v: Seq<char>) -> Seq<char> {
    k + ": "@ + v + "\n"@
}

proof fn lemma_field_line(k: Seq<char>, v: Seq<char>)
    requires
        !has_sep(k),
        k.len() > 0 ==> !is_white(k[0]),
        v.len() > 0,
        !is_white(v.last()),
    ensures
        split_once(trim(field_line(k, v))) == Some((k, v)),
        !is_end_line(field_line(k, v)),
{
    reveal_strlit(": ");
    reveal_strlit("\n");
    let line = field_line(k, v);
    let core = k + ": "@ + v;
    assert(line =~= core.push('\n'));
    assert(!is_white(':'));
    if k.len() > 0 {
        assert(core[0] == k[0]);
    } else {
        assert(core[0] == ':');
    }
    assert(trim_front(line) == line);
    assert(line.drop_last() =~= core);
    assert(core.last() == v.last());
    assert(trim_back(line) == trim_back(core));
    assert(trim_back(core) == core);
    assert(trim(line) == core);
    let i = k.len() as int;
    assert(sep_at(core, i));
    assert forall|j: int| 0 <= j < i implies !#[trigger] sep_at(core, j) by {
        assert(core[j] == k[j]);
        if j + 1 < i {
            assert(core[j + 1] == k[j + 1]);
            assert(!sep_at(k, j));
        } else {
            assert(core[j + 1] == ':');
        }
    }
    assert(first_sep_at(core, i));
    lemma_first_sep_unique(core, i);
    assert(core.take(i) =~= k);
    assert(core.skip(i + 2) =~= v);
    lemma_encode_len(line);
    lemma_one_byte_line(line);
}

/// Every header line is read as its key and value, whatever the key: for
/// any key `k` holding no `": "` and any value `v`, the head made of the
/// line `k: v` and the empty line declares exactly `k` with the value `v`.
/// (The key may not start, nor the value end, with whitespace, which a
/// reader trims.)
pub proof fn law_header_line_read(k: Seq<char>, v: Seq<char>)
    requires
        !has_sep(k),
        k.len() > 0 ==> !is_white(k[0]),
        v.len() > 0,
        !is_white(v.last()),
    ensures
        headers_of(seq![field_line(k, v), "\n"@]) == Map::<Seq<char>, Seq<char>>::empty().insert(
            k,
            v,
        ),
{
    reveal_strlit("\n");
    lemma_field_line(k, v);
    lemma_one_byte_line("\n"@);
    let line = field_line(k, v);
    let ls = seq![line, "\n"@];
    assert(ls[0] == line);
    assert(ls.drop_first() =~= seq!["\n"@]);
    assert(header_part(seq!["\n"@]) == Seq::<Seq<char>>::empty());
    assert(header_part(ls) =~= seq![line]);
    assert(seq![line].drop_last() =~= Seq::<Seq<char>>::empty());
    assert(seq![line].last() == line);
    assert(header_map(Seq::<Seq<char>>::empty()) == Map::<Seq<char>, Seq<char>>::empty());
}

/// Only version 1.0 is served: a version line `idunn: v` is accepted when
/// `v` is `1.0` and refused as `Impossible` for every other version `v`
/// (one holding no `": "` and not ending in whitespace, which a reader
/// trims).
pub proof fn law_only_version_1_0_served(v: Seq<char>)
    requires
        !has_sep(v),
        v.len() > 0,
        !is_white(v.last()),
    ensures
        version_line_result("idunn: "@ + v + "\n"@) == if v == "1.0"@ {
            Ok::<(), ProtoError>(())
        } else {
            Err(ProtoError::Impossible)
        },
{
    reveal_strlit("idunn: ");
    reveal_strlit("idunn");
    reveal_strlit(": ");
    let k = "idunn"@;
    assert(!has_sep(k)) by {
        assert forall|j: int| !#[trigger] sep_at(k, j) by {}
    }
    assert(!is_white(k[0]));
    lemma_field_line(k, v);
    assert("idunn: "@ + v + "\n"@ =~= field_line(k, v));
}

} // verus!
