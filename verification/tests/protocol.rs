//! Names, frames, calls and messages.
use goblins::json::{insert, Json};
use goblins::messages::{
    hex, load_body, operation_key, print_outcome, read_body, validate_body, BodyError, BodySource,
    Mutation, Report,
};
use goblins::protocol::{docker_scope_name, identifier, package_kind, package_name, Reply};
use goblins::rpc::{
    call, encode, envelope, error, outcome, parse, request, result, valid_id, validate_response,
    Decoder, PermissionParams, MAX_HEADER, TIMEOUT,
};
use serde::de::{Deserialize, Deserializer, Error, MapAccess, SeqAccess, Visitor};

/// A value as it is read: an object that names a member twice is refused.
struct Read(Json);

struct ReadVisitor;

impl<'de> Visitor<'de> for ReadVisitor {
    type Value = Read;

    fn expecting(&self, f: &mut std::fmt::Formatter) -> std::fmt::Result {
        f.write_str("a value")
    }

    fn visit_bool<E: Error>(self, v: bool) -> Result<Read, E> {
        Ok(Read(Json::Bool(v)))
    }

    fn visit_u64<E: Error>(self, v: u64) -> Result<Read, E> {
        Ok(Read(Json::Unsigned(v)))
    }

    fn visit_i64<E: Error>(self, v: i64) -> Result<Read, E> {
        Ok(Read(if v < 0 { Json::Negative(v) } else { Json::Unsigned(v as u64) }))
    }

    fn visit_f64<E: Error>(self, v: f64) -> Result<Read, E> {
        Ok(Read(Json::Float(v.to_string())))
    }

    fn visit_str<E: Error>(self, v: &str) -> Result<Read, E> {
        Ok(Read(Json::Text(v.to_string())))
    }

    fn visit_unit<E: Error>(self) -> Result<Read, E> {
        Ok(Read(Json::Null))
    }

    fn visit_seq<A: SeqAccess<'de>>(self, mut a: A) -> Result<Read, A::Error> {
        let mut items = Vec::new();
        while let Some(Read(v)) = a.next_element()? {
            items.push(v);
        }
        Ok(Read(Json::Array(items)))
    }

    fn visit_map<A: MapAccess<'de>>(self, mut a: A) -> Result<Read, A::Error> {
        let mut fields = Vec::new();
        while let Some(key) = a.next_key::<String>()? {
            let Read(v) = a.next_value()?;
            if !insert(&mut fields, key, v) {
                return Err(Error::custom("duplicate field"));
            }
        }
        Ok(Read(Json::Object(fields)))
    }
}

impl<'de> Deserialize<'de> for Read {
    fn deserialize<D: Deserializer<'de>>(d: D) -> Result<Self, D::Error> {
        d.deserialize_any(ReadVisitor)
    }
}

fn decode(bytes: &[u8]) -> Result<Json, String> {
    serde_json::from_slice::<Read>(bytes).map(|r| r.0).map_err(|e| e.to_string())
}

fn value(text: &str) -> Json {
    decode(text.as_bytes()).unwrap()
}

fn text(s: &str) -> Json {
    Json::Text(s.to_string())
}

fn object(fields: Vec<(&str, Json)>) -> Json {
    Json::Object(fields.into_iter().map(|(k, v)| (k.to_string(), v)).collect())
}

#[test]
fn package_grammar_has_no_host_authority() {
    for name in ["jq", "cowsay", "python3Packages.black"] {
        assert!(package_name(name));
    }
    for name in [
        "../hello",
        "nixpkgs#hello",
        "hello^out",
        "--impure",
        "foo..bar",
        "github:owner/repo",
        "foo.\"bar\"",
    ] {
        assert!(!package_name(name));
    }
    assert!(!package_name(&"x".repeat(201)));
}

#[test]
fn scopes_and_identifiers_are_short_and_plain() {
    assert!(docker_scope_name("team-1"));
    assert!(!docker_scope_name(""));
    assert!(!docker_scope_name("../x"));
    assert!(!docker_scope_name(&"x".repeat(65)));
    assert!(identifier("setup-1"));
    assert!(identifier(&"x".repeat(64)));
    assert!(!identifier(&"x".repeat(65)));
    assert!(!identifier(""));
    assert!(!identifier("a b"));
    assert_eq!(package_kind(), "package");
    let r = Reply::new(Some("7".to_string()), "ready", None);
    assert_eq!(r.status, "ready");
    assert_eq!(r.id, Some("7".to_string()));
    assert!(r.message.is_none());
}

#[test]
fn hostile_frames_and_deadlines() {
    let now: u64 = 5_000_000_000;
    for data in [
        b"Content-Length: 1\r\nContent-Length: 1\r\n\r\nx".as_slice(),
        b"Content-Length: 99999999\r\n\r\n",
        b"Content-Length: -1\r\n\r\n",
        b"X: 1\r\n\r\n",
        &[b'a'; 257],
    ] {
        assert!(Decoder::new(4096, Some(now)).push(data, now).is_err());
    }
    let encoded = encode("{\"utf8\":\"\u{1F41F}\"}".as_bytes()).unwrap();
    let mut d = Decoder::new(4096, Some(now));
    let mut result = None;
    for byte in &encoded {
        result = d.push(&[*byte], now).unwrap().1;
    }
    let v = parse(&result.unwrap(), decode).unwrap();
    assert_eq!(v.get("utf8").unwrap().as_str(), Some("\u{1F41F}"));
    let mut d = Decoder::new(4096, Some(now));
    for i in 0..3 {
        assert!(d.push(b"C", now + i * 1_000_000_000).is_ok());
    }
    assert!(d.push(b"x", now + TIMEOUT).is_err());
    assert!(Decoder::new(4096, Some(now)).push(&[], now + TIMEOUT).is_err());
}

#[test]
fn strict_envelope_and_nested_fields() {
    for s in ["{\"a\":1,\"a\":2}", "{\"params\":{\"a\":1,\"a\":2}}"] {
        assert!(parse(s.as_bytes(), decode).is_err());
    }
    for s in [
        "[]",
        "{\"jsonrpc\":\"1.0\",\"id\":1,\"method\":\"x\"}",
        "{\"jsonrpc\":\"2.0\",\"id\":true,\"method\":\"x\"}",
    ] {
        assert!(call(s.as_bytes(), decode).is_err());
    }
    assert!(parse(format!("{}{}", "[".repeat(33), "]".repeat(33)).as_bytes(), decode).is_err());
    assert!(parse(format!("{}{}", "[".repeat(32), "]".repeat(32)).as_bytes(), decode).is_ok());
    assert!(call(b"{\"jsonrpc\":\"2.0\",\"method\":\"x\"}", decode).ok().unwrap().id.is_none());
}

#[test]
fn a_member_that_occurs_twice_is_refused_whatever_decodes_it() {
    let twice = || object(vec![("a", Json::Null), ("a", Json::Null)]);
    let nested = || Json::Array(vec![Json::Null, object(vec![("b", twice())])]);
    assert!(!twice().is_unambiguous() && !nested().is_unambiguous());
    assert!(value("{\"a\":[{\"b\":1},{\"b\":1}],\"b\":{}}").is_unambiguous());
    assert_eq!(parse(b"{}", |_| Ok(twice())).err().as_deref(), Some("duplicate field"));
    assert_eq!(parse(b"{}", |_| Ok(nested())).err().as_deref(), Some("duplicate field"));
    assert_eq!(parse(b"{}", |_| Err("no".to_string())).err().as_deref(), Some("no"));
    assert!(parse(b"{}", |_| Ok(Json::Null)).unwrap().same(&Json::Null));
    let asked = |params: Json| {
        object(vec![("jsonrpc", text("2.0")), ("method", text("x")), ("params", params)])
    };
    assert!(call(b"{}", |_| Ok(asked(object(vec![("a", Json::Null)])))).is_ok());
    let refused = call(b"{}", |_| Ok(asked(twice()))).err().unwrap();
    assert!(refused.same(&error(Json::Null, -32700, "invalid JSON")));
}

#[test]
fn frames_come_out_whole_at_any_boundary() {
    let first = encode(b"{\"a\":1}").unwrap();
    assert_eq!(first, b"Content-Length: 7\r\n\r\n{\"a\":1}".to_vec());
    for cut in 0..first.len() {
        let mut d = Decoder::new(64, None);
        let (used, none) = d.push(&first[..cut], 1).unwrap();
        assert_eq!(used, cut);
        assert!(none.is_none());
        let (used, body) = d.push(&first[cut..], 1).unwrap();
        assert_eq!(used, first.len() - cut);
        assert_eq!(body.unwrap(), b"{\"a\":1}".to_vec());
    }
    let mut d = Decoder::new(64, None);
    assert!(!d.expired(u64::MAX));
    d.push(b"C", 10).unwrap();
    assert!(!d.expired(10));
    assert!(d.expired(10 + TIMEOUT));
    let long = vec![b'a'; MAX_HEADER + 1];
    assert!(Decoder::new(64, None).push(&long, 1).is_err());
}

#[test]
fn answers_belong_to_their_calls() {
    let id = Json::Unsigned(4);
    let r = request(Json::Unsigned(4), "sessions.list", Json::Object(Vec::new()));
    assert_eq!(r.get("method").unwrap().as_str(), Some("sessions.list"));
    let ok = result(Json::Unsigned(4), text("done"));
    assert!(validate_response(&ok, &id).is_ok());
    assert!(validate_response(&ok, &Json::Unsigned(5)).is_err());
    assert_eq!(outcome(&ok, &id).unwrap().ok().unwrap().as_str(), Some("done"));
    let bad = error(Json::Unsigned(4), -32601, "unknown method");
    assert!(validate_response(&bad, &id).is_ok());
    let e = outcome(&bad, &id).unwrap().err().unwrap();
    assert_eq!(e.get("message").unwrap().as_str(), Some("unknown method"));
    assert!(matches!(e.get("code"), Some(Json::Negative(-32601))));
    assert!(valid_id(&text("abc")));
    assert!(!valid_id(&Json::Bool(true)));
    assert!(envelope(Err("broken".to_string())).is_err());
}

#[test]
fn sender_identity_and_file_paths_are_not_wire_parameters() {
    for extra in ["sender", "file", "session", "claim_generation"] {
        let params = object(vec![
            ("key", text("k")),
            ("to", text("scout")),
            ("body", text("hello")),
            (extra, text("host")),
        ]);
        assert!(Mutation::parse("messages.send", &params, "").is_err());
    }
    let params =
        object(vec![("key", text("k")), ("to", text("scout")), ("body", text("hello"))]);
    assert!(Mutation::parse("messages.send", &params, "").is_ok());
}

#[test]
fn calls_may_leave_out_the_names_of_their_parts() {
    let list = Json::Array;
    let call = |items: Vec<Json>| envelope(Ok(Json::Array(items)));
    let parts = || vec![text("2.0"), Json::Unsigned(3), text("inbox.next")];
    let c = call(parts()).ok().unwrap();
    assert_eq!((c.method.as_str(), c.id.and_then(|i| i.as_u64())), ("inbox.next", Some(3)));
    assert!(matches!(c.params, Json::Object(f) if f.is_empty()));
    let mut with = parts();
    with.push(list(vec![text("k")]));
    let c = call(with).ok().unwrap();
    let m = Mutation::parse(&c.method, &c.params, "").unwrap();
    assert!(matches!(m, Mutation::Next(n) if n.key == "k"));
    let quiet = call(vec![text("2.0"), Json::Null, text("inbox.next")]).ok().unwrap();
    assert!(quiet.id.is_none());
    assert!(call(vec![text("2.0"), Json::Null]).is_err());
    assert!(call(vec![text("1.0"), Json::Null, text("x")]).is_err());
    let send = |n: usize| {
        let all = vec![text("k"), text("scout"), text("hello"), Json::Null, Json::Null];
        Mutation::parse("messages.send", &list(all.into_iter().take(n).collect()), "length")
    };
    assert!(matches!(send(4), Ok(Mutation::Send(s)) if s.to == "scout" && s.conversation.is_none()));
    assert_eq!(send(3).err().unwrap(), "length");
    assert_eq!(send(5).err().unwrap(), "length");
    let reply = vec![text("k"), text("m"), Json::Unsigned(1), text("hi")];
    let m = Mutation::parse("messages.reply", &list(reply), "").unwrap();
    assert!(matches!(m, Mutation::Reply(r) if r.body == "hi" && r.claim_generation == 1));
}

#[test]
fn content_limits_count_utf8_bytes_and_allow_json_escaping() {
    let max = 8192;
    assert_eq!(goblins::messages::MAX_BODY, max);
    let body = "\0".repeat(max);
    let params =
        object(vec![("key", text("k")), ("to", text("scout")), ("body", text(&body))]);
    let mutation = Mutation::parse("messages.send", &params, "").unwrap();
    let mut fields = std::collections::BTreeMap::new();
    if let Mutation::Send(s) = &mutation {
        fields.insert("key", s.key.clone());
        fields.insert("to", s.to.clone());
        fields.insert("body", s.body.clone());
    }
    let encoded = serde_json::to_vec(&fields).unwrap();
    assert!(encoded.len() > max);
    assert!(encoded.len() < goblins::messages::MAX_REQUEST);
    assert!(read_body("\u{1F41F}".repeat(max / 4).as_bytes()).is_ok());
    assert!(read_body("\u{1F41F}".repeat(max / 4 + 1).as_bytes()).is_err());
    assert!(read_body(&[0xff][..]).is_err());
    assert_eq!(
        read_body("literal $(false)\nsecond line".as_bytes()).ok().unwrap(),
        "literal $(false)\nsecond line"
    );
}

#[test]
fn bodies_say_what_is_wrong_with_them() {
    assert!(validate_body("").is_ok() == read_body(b"").is_ok());
    assert!(matches!(read_body(&[0xff]), Err(BodyError::NotText(_))));
    let large = "x".repeat(goblins::messages::MAX_BODY + 1);
    assert!(matches!(read_body(large.as_bytes()), Err(BodyError::TooLarge)));
    assert!(validate_body(&large).is_err());
    assert!(matches!(load_body(Some("a".to_string()), None), Ok(BodySource::Text(t)) if t == "a"));
    assert!(matches!(load_body(None, Some("-".to_string())), Ok(BodySource::Stdin)));
    assert!(matches!(load_body(None, Some("f".to_string())), Ok(BodySource::File(t)) if t == "f"));
}

#[test]
fn operations_have_keys() {
    let random = [0xab; 16];
    assert_eq!(operation_key(None, &random).unwrap(), "ab".repeat(16));
    assert_eq!(hex(&[0x00, 0x1f, 0xff]), "001fff");
    assert_eq!(operation_key(Some("setup-1".to_string()), &random).unwrap(), "setup-1");
    assert_eq!(
        operation_key(Some("a b".to_string()), &random).err().unwrap(),
        "invalid operation key"
    );
}

#[test]
fn an_outcome_that_is_not_known_is_no_refusal() {
    let done = print_outcome(Ok(Ok(object(vec![("message", text("m1"))]))), Some("k1"));
    assert_eq!(done.code(), 0);
    match done {
        Report::Done(v) => {
            assert_eq!(v.get("key").unwrap().as_str(), Some("k1"));
            assert_eq!(v.get("message").unwrap().as_str(), Some("m1"));
        }
        _ => panic!("not done"),
    }
    let refused = print_outcome(Ok(Err(text("no"))), Some("k1"));
    assert_eq!(refused.code(), 1);
    let unknown = print_outcome(Err("connection lost".to_string()), Some("k1"));
    assert_eq!(unknown.code(), 2);
}

#[test]
fn permissions_are_for_packages() {
    let ask = |kind: &str, package: &str, reason: &str| {
        PermissionParams {
            kind: kind.to_string(),
            package: package.to_string(),
            reason: reason.to_string(),
        }
        .validate()
    };
    assert!(ask("package", "jq", "to read"));
    assert!(!ask("docker", "jq", "to read"));
    assert!(!ask("package", "../jq", "to read"));
    assert!(!ask("package", "jq", ""));
    assert!(ask("package", "jq", &"x".repeat(1024)));
    assert!(!ask("package", "jq", &"x".repeat(1025)));
}

#[test]
fn values_are_equal_whatever_the_order_of_members() {
    assert!(value("{\"a\":1,\"b\":[true,null]}").same(&value("{\"b\":[true,null],\"a\":1}")));
    assert!(!value("{\"a\":1}").same(&value("{\"a\":2}")));
    assert!(!value("[1,2]").same(&value("[2,1]")));
    let float = |t: &str| Json::Float(t.to_string());
    assert!(float("0.0").same(&float("-0.0")) && float("-0.0").same(&float("0.0")));
    assert!(float("1.5").same(&float("1.5")));
    assert!(!float("1.5").same(&float("-1.5")) && !float("0.0").same(&float("1.5")));
    assert!(!float("0.0").same(&Json::Unsigned(0)));
    let mut fields = Vec::new();
    assert!(insert(&mut fields, "a".to_string(), Json::Null));
    assert!(!insert(&mut fields, "a".to_string(), Json::Null));
}

#[test]
fn what_a_frame_lacks_is_known_at_every_byte() {
    let frame = encode(b"hello").unwrap();
    let head = frame.len() - 5;
    let mut d = Decoder::new(64, None);
    assert!(!d.expired(10));
    for (i, b) in frame.iter().enumerate() {
        assert_eq!(d.remaining(), if i < head { 1 } else { frame.len() - i });
        let now = 100 + i as u64;
        match d.push(&[*b], now).unwrap() {
            (1, None) => assert!(i + 1 < frame.len()),
            (1, Some(body)) => assert_eq!((i + 1, body), (frame.len(), b"hello".to_vec())),
            _ => panic!("not one byte"),
        }
        assert!(!d.expired(100 + TIMEOUT - 1));
        assert!(d.expired(100 + TIMEOUT));
    }
    let mut d = Decoder::new(64, None);
    assert!(d.push(&[], 1).is_ok());
    assert!(!d.expired(u64::MAX));
}
