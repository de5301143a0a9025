use fingerprint::akamai::Akamai;
use fingerprint::hpack::hpack_framed;
use fingerprint::http2::{
    parse_frame, pseudo_headers, Frame, HeadersFrame, Http2Inspector, Setting, SettingsFrame, WindowUpdateFrame,
};
use fingerprint::ja3::Ja3;
use fingerprint::json::{canonical_json, Json, Member};
use fingerprint::report::{Http2Report, Report};
use fingerprint::tls::{is_not_grease, parse_client_hello, TlsHandshake, HelloScan, TlsInspctor};
use fingerprint::ts1::{Ts1Http2, Ts1Tls};

const PREFACE: &[u8] = b"PRI * HTTP/2.0\r\n\r\nSM\r\n\r\n";

fn ext(typ: u16, data: &[u8]) -> Vec<u8> {
    let mut v = typ.to_be_bytes().to_vec();
    v.extend_from_slice(&(data.len() as u16).to_be_bytes());
    v.extend_from_slice(data);
    v
}

fn client_hello(record_version: u16, ciphers: &[u16], session_id: &[u8], exts: &[Vec<u8>]) -> Vec<u8> {
    let mut body = vec![0x03, 0x03];
    body.extend_from_slice(&[7u8; 32]);
    body.push(session_id.len() as u8);
    body.extend_from_slice(session_id);
    body.extend_from_slice(&((ciphers.len() * 2) as u16).to_be_bytes());
    for c in ciphers {
        body.extend_from_slice(&c.to_be_bytes());
    }
    body.push(1);
    body.push(0);
    let all: Vec<u8> = exts.concat();
    body.extend_from_slice(&(all.len() as u16).to_be_bytes());
    body.extend_from_slice(&all);
    let mut hs = vec![1, 0, (body.len() >> 8) as u8, body.len() as u8];
    hs.extend_from_slice(&body);
    let mut rec = vec![22];
    rec.extend_from_slice(&record_version.to_be_bytes());
    rec.extend_from_slice(&(hs.len() as u16).to_be_bytes());
    rec.extend_from_slice(&hs);
    rec
}

fn chrome_ciphers() -> Vec<u16> {
    vec![0x1301, 0x1302, 0x1303, 0xC02B, 0xC02F, 0xC02C, 0xC030]
}

fn chrome_extensions() -> Vec<Vec<u8>> {
    vec![
        ext(0, &[0, 8, 0, 0, 5, b'a', b'.', b'c', b'o', b'm']),
        ext(23, &[]),
        ext(65281, &[0]),
        ext(10, &[0, 6, 0, 0x1d, 0, 0x17, 0, 0x18]),
        ext(11, &[1, 0]),
        ext(35, &[]),
        ext(16, &[0, 12, 2, b'h', b'2', 8, b'h', b't', b't', b'p', b'/', b'1', b'.', b'1']),
        ext(5, &[1, 0, 0, 0, 0]),
        ext(13, &[0, 4, 4, 3, 8, 4]),
        ext(18, &[]),
        ext(51, &[0, 0]),
        ext(45, &[1, 1]),
        ext(43, &[2, 3, 4]),
        ext(21, &[0, 0, 0]),
    ]
}

fn hello_of(bytes: &[u8]) -> TlsHandshake {
    match parse_client_hello(bytes) {
        HelloScan::Hello(h) => h,
        HelloScan::Incomplete => panic!("incomplete"),
        HelloScan::NotHello => panic!("not a hello"),
    }
}

fn frame_bytes(ty: u8, flags: u8, stream: u32, payload: &[u8]) -> Vec<u8> {
    let n = payload.len();
    let mut v = vec![(n >> 16) as u8, (n >> 8) as u8, n as u8, ty, flags];
    v.extend_from_slice(&stream.to_be_bytes());
    v.extend_from_slice(payload);
    v
}

fn scenario_frames() -> Vec<Frame> {
    vec![
        Frame::Settings(SettingsFrame {
            stream_id: 0,
            settings: vec![
                Setting { id: 1, value: 65536 },
                Setting { id: 3, value: 1000 },
                Setting { id: 4, value: 6291456 },
                Setting { id: 6, value: 262144 },
            ],
        }),
        Frame::WindowUpdate(WindowUpdateFrame { stream_id: 0, window_size_increment: 15663105 }),
        Frame::Headers(HeadersFrame {
            stream_id: 1,
            pseudo_headers: vec![
                ":method".to_string(),
                ":authority".to_string(),
                ":scheme".to_string(),
                ":path".to_string(),
            ],
        }),
    ]
}

fn wire_stream() -> Vec<u8> {
    let mut s = PREFACE.to_vec();
    let mut settings = Vec::new();
    for (id, value) in [(1u16, 65536u32), (3, 1000), (4, 6291456), (6, 262144)] {
        settings.extend_from_slice(&id.to_be_bytes());
        settings.extend_from_slice(&value.to_be_bytes());
    }
    s.extend(frame_bytes(4, 0, 0, &settings));
    s.extend(frame_bytes(8, 0, 0, &15663105u32.to_be_bytes()));
    s.extend(frame_bytes(2, 0, 3, &[0, 0, 0, 0, 200]));
    s.extend(frame_bytes(1, 0x04, 1, &[0x82, 0x41, 0x01, b'a', 0x86, 0x84]));
    s.extend(frame_bytes(6, 0, 0, &[0; 8]));
    s
}

#[test]
fn chrome_like_ja3() {
    let h = hello_of(&client_hello(0x0301, &chrome_ciphers(), &[], &chrome_extensions()));
    let ja3 = Ja3::new(&h, false);
    assert_eq!(
        ja3.str,
        "771,4865-4866-4867-49195-49199-49196-49200,0-23-65281-10-11-35-16-5-13-18-51-45-43-21,29-23-24,0"
    );
    assert_eq!(ja3.md5, "07e24e746fcb06140a77359b1bd4bae3");
    let sorted = Ja3::new(&h, true);
    assert_eq!(
        sorted.str,
        "771,4865-4866-4867-49195-49199-49196-49200,0-10-11-13-16-18-21-23-35-43-45-5-51-65281,29-23-24,0"
    );
    assert_eq!(sorted.md5, "148ab84c0899acff9815ea991c889073");
}

#[test]
fn grease_leaves_ja3_alone() {
    let plain = hello_of(&client_hello(0x0301, &chrome_ciphers(), &[], &chrome_extensions()));
    let mut ciphers = chrome_ciphers();
    ciphers.insert(0, 0x2A2A);
    let mut exts = chrome_extensions();
    exts.insert(0, ext(0x0A0A, &[]));
    let greased = hello_of(&client_hello(0x0301, &ciphers, &[], &exts));
    assert_eq!(Ja3::new(&plain, false).md5, Ja3::new(&greased, false).md5);
    assert_eq!(Ja3::new(&plain, true).md5, Ja3::new(&greased, true).md5);
    assert_ne!(Ts1Tls::new(&plain).sha1, Ts1Tls::new(&greased).sha1);
}

#[test]
fn sorting_sorted_extensions_again() {
    let h = hello_of(&client_hello(0x0301, &chrome_ciphers(), &[], &chrome_extensions()));
    let order = [0u16, 10, 11, 13, 16, 18, 21, 23, 35, 43, 45, 5, 51, 65281];
    let all = chrome_extensions();
    let mut sorted_exts = Vec::new();
    for code in order {
        let e = all.iter().find(|e| u16::from_be_bytes([e[0], e[1]]) == code).unwrap();
        sorted_exts.push(e.clone());
    }
    let s = hello_of(&client_hello(0x0301, &chrome_ciphers(), &[], &sorted_exts));
    assert_eq!(Ja3::new(&s, true).str, Ja3::new(&h, true).str);
    assert_eq!(Ja3::new(&s, false).str, Ja3::new(&s, true).str);
}

#[test]
fn ts1_tls_text() {
    let exts = vec![ext(0x0A0A, &[]), ext(0, &[0, 0]), ext(10, &[0, 4, 0, 0x1d, 0, 0x17])];
    let h = hello_of(&client_hello(0x0301, &[0x2A2A, 0x1301], &[], &exts));
    let ts1 = Ts1Tls::new(&h);
    assert_eq!(
        ts1.text,
        "{\"client_hello\": {\"ciphersuites\": [\"GREASE\", 4865], \"comp_methods\": [0], \"extensions\": [{\"length\": 0, \"type\": \"GREASE\"}, {\"type\": \"server_name\"}, {\"length\": 6, \"supported_groups\": [29, 23], \"type\": \"supported_groups\"}], \"handshake_version\": \"TLS_VERSION_1_2\", \"record_version\": \"TLS_VERSION_1_0\", \"sesion_id_length\": 0}}"
    );
    assert_eq!(ts1.sha1, "9b4e110d9682ccecc2ca4fcffbcaeddb185208e8");
}

#[test]
fn ts1_grease_data_is_base64() {
    let exts = vec![ext(0x1A1A, &[0]), ext(99, &[1, 2])];
    let h = hello_of(&client_hello(0x0303, &[0x1301], &[1, 2, 3], &exts));
    let text = Ts1Tls::new(&h).text;
    assert!(text.contains("{\"data\": \"AA==\", \"length\": 4, \"type\": \"GREASE\"}"));
    assert!(text.contains("{\"length\": 2, \"type\": 99}"));
    assert!(text.contains("\"sesion_id_length\": 3"));
    assert!(text.contains("\"record_version\": \"TLS_VERSION_1_2\""));
}

#[test]
fn ts1_alpn_drops_invalid_utf8() {
    let exts = vec![ext(16, &[0, 7, 2, b'h', b'2', 1, 0xff, 1, b'x'])];
    let h = hello_of(&client_hello(0x0301, &[0x1301], &[], &exts));
    let text = Ts1Tls::new(&h).text;
    assert!(text.contains("\"alpn_list\": [\"h2\", \"x\"]"));
}

#[test]
fn client_hello_fields() {
    let h = hello_of(&client_hello(0x0301, &chrome_ciphers(), &[9; 32], &chrome_extensions()));
    assert_eq!(h.record_version, 0x0301);
    assert_eq!(h.handshake_version, 0x0303);
    assert_eq!(h.session_id_length, 32);
    assert_eq!(h.cipher_suites, chrome_ciphers());
    assert_eq!(h.compression_methods, vec![0]);
    assert_eq!(h.extensions.len(), 14);
    assert_eq!(h.extensions[3].typ, 10);
    assert_eq!(h.extensions[3].data, vec![0, 6, 0, 0x1d, 0, 0x17, 0, 0x18]);
}

#[test]
fn short_and_foreign_records() {
    let bytes = client_hello(0x0301, &chrome_ciphers(), &[], &chrome_extensions());
    assert!(matches!(parse_client_hello(&[]), HelloScan::Incomplete));
    assert!(matches!(parse_client_hello(&bytes[..3]), HelloScan::Incomplete));
    assert!(matches!(parse_client_hello(&bytes[..bytes.len() - 1]), HelloScan::Incomplete));
    assert!(matches!(parse_client_hello(b"GET / HTTP/1.1\r\n"), HelloScan::NotHello));
    let mut not_hello = bytes.clone();
    not_hello[5] = 2;
    assert!(matches!(parse_client_hello(&not_hello), HelloScan::NotHello));
}

#[test]
fn grease_pattern() {
    assert!(!is_not_grease(&0x0A0A));
    assert!(!is_not_grease(&0xFAFA));
    assert!(is_not_grease(&0x1301));
    assert!(is_not_grease(&0x0A0B));
}

#[test]
fn tls_sniffer_in_pieces() {
    let bytes = client_hello(0x0301, &chrome_ciphers(), &[], &chrome_extensions());
    let mut s = TlsInspctor::new();
    for chunk in bytes.chunks(7) {
        s.observe(chunk);
    }
    let h = s.handshake().expect("captured");
    assert_eq!(Ja3::new(h, false).md5, "07e24e746fcb06140a77359b1bd4bae3");
    s.observe(b"more bytes after the hello");
    assert!(s.handshake().is_some());
}

#[test]
fn plain_http_on_tls_port() {
    let mut s = TlsInspctor::new();
    s.observe(b"GET / HTTP/1.1\r\nHost: x\r\n\r\n");
    assert!(s.handshake().is_none());
    assert!(s.gave_up);
    let report = Report::build(s.handshake(), &[]);
    assert!(report.tls.is_none());
    assert!(report.http2.is_none());
}

#[test]
fn akamai_scenario() {
    let a = Akamai::new(&scenario_frames());
    assert_eq!(a.str, "1:65536;3:1000;4:6291456;6:262144|15663105|0|m,a,s,p");
    assert_eq!(a.sha1, "4b3caefcd585cf3cc2c26659b7d9e07fbde848df");
}

#[test]
fn akamai_empty_sections() {
    let frames = vec![Frame::Settings(SettingsFrame {
        stream_id: 0,
        settings: vec![Setting { id: 2, value: 0 }],
    })];
    assert_eq!(Akamai::new(&frames).str, "2:0|00|0");
    assert_eq!(Akamai::new(&[]).str, "|00|0");
}

#[test]
fn empty_frame_log_has_no_http2_report() {
    assert!(Http2Report::new(&[]).is_none());
    assert!(Http2Report::new(&scenario_frames()).is_some());
}

#[test]
fn h2_sniffer_decodes_frames() {
    let stream = wire_stream();
    let mut s = Http2Inspector::new();
    s.observe(&stream);
    let frames = s.frames();
    assert_eq!(frames.len(), 5);
    match &frames[3] {
        Frame::Headers(h) => {
            assert_eq!(h.stream_id, 1);
            assert_eq!(h.pseudo_headers, vec![":method", ":authority", ":scheme", ":path"]);
        }
        other => panic!("unexpected {:?}", other),
    }
    assert!(matches!(frames[4], Frame::Unknown(6)));
    let a = Akamai::new(frames);
    assert_eq!(a.str, "1:65536;3:1000;4:6291456;6:262144|15663105|3:0:0:200|m,a,s,p");
}

#[test]
fn h2_sniffer_same_log_for_any_split() {
    let stream = wire_stream();
    let mut whole = Http2Inspector::new();
    whole.observe(&stream);
    let mut bytewise = Http2Inspector::new();
    for b in &stream {
        bytewise.observe(std::slice::from_ref(b));
    }
    let mut uneven = Http2Inspector::new();
    for chunk in stream.chunks(10) {
        uneven.observe(chunk);
    }
    let t = Ts1Http2::new(whole.frames()).text;
    assert_eq!(Ts1Http2::new(bytewise.frames()).text, t);
    assert_eq!(Ts1Http2::new(uneven.frames()).text, t);
    assert_eq!(Akamai::new(uneven.frames()).str, Akamai::new(whole.frames()).str);
}

#[test]
fn h2_sniffer_ignores_http1() {
    let mut s = Http2Inspector::new();
    s.observe(b"GET / HTTP/1.1\r\nHost: example\r\n\r\n");
    assert!(s.not_http2);
    s.observe(&wire_stream());
    assert!(s.frames().is_empty());
    assert!(Report::build(None, s.frames()).http2.is_none());
}

#[test]
fn headers_with_padding_and_priority() {
    let mut payload = vec![2, 0x80, 0, 0, 3, 15];
    payload.extend_from_slice(&[0x82, 0x87, 0x84]);
    payload.extend_from_slice(&[0, 0]);
    let bytes = frame_bytes(1, 0x08 | 0x20 | 0x04, 5, &payload);
    let (n, f) = parse_frame(&bytes);
    assert_eq!(n, bytes.len());
    match f {
        Some(Frame::Headers(h)) => {
            assert_eq!(h.stream_id, 5);
            assert_eq!(h.pseudo_headers, vec![":method", ":scheme", ":path"]);
        }
        other => panic!("unexpected {:?}", other),
    }
}

#[test]
fn malformed_frames_are_skipped() {
    let bytes = frame_bytes(8, 0, 0, &[0, 0, 1]);
    let (n, f) = parse_frame(&bytes);
    assert_eq!(n, 12);
    assert!(f.is_none());
    let (n, f) = parse_frame(&bytes[..11]);
    assert_eq!(n, 0);
    assert!(f.is_none());
    let bad_hpack = frame_bytes(1, 0x04, 1, &[0xff, 0xff, 0xff, 0xff, 0xff, 0xff, 0x7f]);
    assert!(parse_frame(&bad_hpack).1.is_none());
}

#[test]
fn priority_and_window_update_fields() {
    let (_, f) = parse_frame(&frame_bytes(2, 0, 0x8000_0007, &[0x80, 0, 0, 3, 41]));
    match f {
        Some(Frame::Priority(p)) => {
            assert_eq!(p.stream_id, 7);
            assert_eq!(p.priority.dep_stream_id, 3);
            assert_eq!(p.priority.weight, 41);
            assert!(p.priority.exclusive);
        }
        other => panic!("unexpected {:?}", other),
    }
    let (_, f) = parse_frame(&frame_bytes(8, 0, 0, &[0xff, 0xff, 0xff, 0xff]));
    match f {
        Some(Frame::WindowUpdate(w)) => assert_eq!(w.window_size_increment, 0x7fff_ffff),
        other => panic!("unexpected {:?}", other),
    }
}

#[test]
fn ts1_http2_text() {
    let frames = vec![
        Frame::WindowUpdate(WindowUpdateFrame { stream_id: 0, window_size_increment: 10 }),
        Frame::Unknown(6),
    ];
    assert_eq!(
        Ts1Http2::new(&frames).text,
        "[{\"frame_type\": \"WINDOW_UPDATE\", \"stream_id\": 0, \"window_size_increment\": 10}, {\"frame_type\": 6}]"
    );
}

#[test]
fn canonical_json_sorts_and_escapes() {
    let v = Json::Object(vec![
        Member {
            key: "b".to_string(),
            value: Json::Array(vec![Json::Bool(true), Json::Null, Json::Str("x\"y\n\u{1}".to_string())]),
        },
        Member { key: "a".to_string(), value: Json::Number(1) },
        Member { key: "B".to_string(), value: Json::Object(vec![]) },
    ]);
    assert_eq!(
        canonical_json(&v),
        "{\"B\": {}, \"a\": 1, \"b\": [true, null, \"x\\\"y\\n\\u0001\"]}"
    );
}

#[test]
fn pseudo_headers_keep_colon_names() {
    let names = vec![b":method".to_vec(), b"accept".to_vec(), vec![b':', 0xff], b":path".to_vec()];
    assert_eq!(pseudo_headers(&names), vec![":method", ":path"]);
}

#[test]
fn hpack_blocks_running_past_their_end_are_skipped() {
    assert!(!hpack_framed(&[0xff]));
    assert!(!hpack_framed(&[0x40]));
    assert!(!hpack_framed(&[0x41, 0x05, b'a']));
    assert!(hpack_framed(&[0x82, 0x41, 0x01, b'a', 0x86, 0x84]));
    assert!(hpack_framed(&[]));
    for block in [vec![0xffu8], vec![0x40], vec![0x1f, 0xff, 0xff]] {
        let bytes = frame_bytes(1, 0x04, 1, &block);
        let (n, f) = parse_frame(&bytes);
        assert_eq!(n, bytes.len());
        assert!(f.is_none());
    }
    let mut stream = PREFACE.to_vec();
    stream.extend(frame_bytes(1, 0x04, 1, &[0xff]));
    stream.extend(frame_bytes(8, 0, 0, &[0, 0, 0, 5]));
    let mut s = Http2Inspector::new();
    s.observe(&stream);
    assert_eq!(s.frames().len(), 1);
}

#[test]
fn hello_without_extensions_is_refused() {
    let bytes = client_hello(0x0301, &[0x1301], &[], &[]);
    let mut cut = bytes.clone();
    // drop the empty extensions block and fix up the three lengths
    cut.truncate(cut.len() - 2);
    let hs_len = cut.len() - 9;
    cut[6] = (hs_len >> 16) as u8;
    cut[7] = (hs_len >> 8) as u8;
    cut[8] = hs_len as u8;
    let rec_len = cut.len() - 5;
    cut[3] = (rec_len >> 8) as u8;
    cut[4] = rec_len as u8;
    assert!(matches!(parse_client_hello(&cut), HelloScan::NotHello));
}
