//! Structural TS1 signatures: a JSON rendering of the ClientHello or of
//! the frame log, in canonical text, and its SHA-1.
use vstd::prelude::*;
use crate::digest::{base64_encode, base64_of, sha1_hex, sha1_hex_of};
use crate::http2::{frames_view, utf8_decode, utf8_of, Frame, FrameView, Setting};
use crate::json::{
    canon, canonical_json, items_view, lemma_items_push, json_array, json_object, members_view, push_member, Json,
    JsonView, Member,
};
use crate::ja3::non_grease;
use crate::tls::{
    is_grease, is_not_grease, prefixed_u16s, prefixed_u8s, read_prefixed_u16s, read_prefixed_u8s,
    wire_sized, TlsHandshake, Extension, ExtensionView, HelloView,
};
use crate::wire::{be16, copy_range, read_be16};

verus! {

/// The name of a TLS protocol version, empty for any other code.
pub open spec fn version_name(v: u16) -> Seq<char> {
    if v == 0x0301 {
        "TLS_VERSION_1_0"@
    } else if v == 0x0302 {
        "TLS_VERSION_1_1"@
    } else if v == 0x0303 {
        "TLS_VERSION_1_2"@
    } else if v == 0x0304 {
        "TLS_VERSION_1_3"@
    } else {
        ""@
    }
}

/// A code as a number, or the string `GREASE` for a GREASE code.
pub open spec fn grease_value(c: u16) -> JsonView {
    if is_grease(c) {
        JsonView::Str("GREASE"@)
    } else {
        JsonView::Number(c as nat)
    }
}

pub open spec fn numbers16(s: Seq<u16>) -> Seq<JsonView> {
    s.map_values(|c: u16| JsonView::Number(c as nat))
}

pub open spec fn numbers8(s: Seq<u8>) -> Seq<JsonView> {
    s.map_values(|c: u8| JsonView::Number(c as nat))
}

/// The protocol names of an ALPN list body, each behind an 8-bit length,
/// up to the first one that runs past the end.
pub open spec fn alpn_entries(s: Seq<u8>) -> Seq<Seq<u8>>
    decreases s.len(),
{
    if s.len() == 0 || 1 + s[0] > s.len() {
        Seq::empty()
    } else {
        seq![s.subrange(1, 1 + s[0] as int)] + alpn_entries(s.subrange(1 + s[0] as int, s.len() as int))
    }
}

/// The protocol names that are UTF-8, in order.
pub open spec fn utf8_names(names: Seq<Seq<u8>>) -> Seq<Seq<char>>
    decreases names.len(),
{
    if names.len() == 0 {
        Seq::empty()
    } else {
        utf8_names(names.drop_last()) + match utf8_of(names.last()) {
            Some(s) => seq![s],
            None => Seq::empty(),
        }
    }
}

/// The ALPN protocol names of an ALPN payload that are UTF-8.
pub open spec fn alpn_names(data: Seq<u8>) -> Seq<Seq<char>> {
    if data.len() >= 2 && 2 + be16(data, 0) <= data.len() {
        utf8_names(alpn_entries(data.subrange(2, 2 + be16(data, 0))))
    } else {
        Seq::empty()
    }
}

pub open spec fn type_member(t: Seq<char>) -> (Seq<char>, JsonView) {
    ("type"@, JsonView::Str(t))
}

pub open spec fn length_member(n: nat) -> (Seq<char>, JsonView) {
    ("length"@, JsonView::Number(n))
}

/// The members of an extension's record.
pub open spec fn ext_members(e: ExtensionView) -> Seq<(Seq<char>, JsonView)> {
    let len = length_member(e.data.len());
    if e.typ == 0 {
        seq![type_member("server_name"@)]
    } else if e.typ == 21 {
        seq![type_member("padding"@)]
    } else if e.typ == 5 {
        seq![
            len,
            type_member("status_request"@),
            (
                "status_request_type"@,
                JsonView::Number(if e.data.len() > 0 { e.data[0] as nat } else { 0 }),
            ),
        ]
    } else if e.typ == 10 {
        seq![
            len,
            type_member("supported_groups"@),
            ("supported_groups"@, JsonView::Array(numbers16(non_grease(prefixed_u16s(e.data))))),
        ]
    } else if e.typ == 11 {
        seq![
            len,
            type_member("ec_point_formats"@),
            ("ec_point_formats"@, JsonView::Array(numbers8(prefixed_u8s(e.data)))),
        ]
    } else if e.typ == 13 {
        seq![
            len,
            type_member("signature_algorithms"@),
            ("sig_hash_algs"@, JsonView::Array(numbers16(prefixed_u16s(e.data)))),
        ]
    } else if e.typ == 16 {
        seq![
            len,
            type_member("application_layer_protocol_negotiation"@),
            (
                "alpn_list"@,
                JsonView::Array(alpn_names(e.data).map_values(|s: Seq<char>| JsonView::Str(s))),
            ),
        ]
    } else if e.typ == 22 {
        seq![len, type_member("encrypt_then_mac"@)]
    } else if is_grease(e.typ) {
        let b = base64_of(e.data);
        if b.len() == 0 {
            seq![length_member(b.len()), type_member("GREASE"@)]
        } else {
            seq![length_member(b.len()), type_member("GREASE"@), ("data"@, JsonView::Str(b))]
        }
    } else {
        seq![len, ("type"@, JsonView::Number(e.typ as nat))]
    }
}

/// The TS1 value of a ClientHello.
pub open spec fn hello_json(h: HelloView) -> JsonView {
    JsonView::Object(
        seq![
            (
                "client_hello"@,
                JsonView::Object(
                    seq![
                        ("record_version"@, JsonView::Str(version_name(h.record_version))),
                        ("handshake_version"@, JsonView::Str(version_name(h.handshake_version))),
                        (
                            "ciphersuites"@,
                            JsonView::Array(h.cipher_suites.map_values(|c: u16| grease_value(c))),
                        ),
                        ("comp_methods"@, JsonView::Array(numbers8(h.compression_methods))),
                        (
                            "extensions"@,
                            JsonView::Array(
                                h.extensions.map_values(
                                    |e: ExtensionView| JsonView::Object(ext_members(e)),
                                ),
                            ),
                        ),
                        ("sesion_id_length"@, JsonView::Number(h.session_id_length)),
                    ],
                ),
            ),
        ],
    )
}

fn u16_numbers(v: &Vec<u16>) -> (r: Json)
    ensures
        r@ == JsonView::Array(numbers16(v@)),
{
    let mut out: Vec<Json> = Vec::new();
    let mut i: usize = 0;
    while i < v.len()
        invariant
            i <= v.len(),
            items_view(out@) == numbers16(v@.take(i as int)),
        decreases v.len() - i,
    {
        let item = Json::Number(v[i] as u64);
        proof {
            lemma_items_push(out@, item);
            assert(numbers16(v@.take(i + 1)) =~= numbers16(v@.take(i as int)).push(item@));
        }
        out.push(item);
        i += 1;
    }
    assert(v@.take(i as int) =~= v@);
    json_array(out)
}

fn u8_numbers(v: &Vec<u8>) -> (r: Json)
    ensures
        r@ == JsonView::Array(numbers8(v@)),
{
    let mut out: Vec<Json> = Vec::new();
    let mut i: usize = 0;
    while i < v.len()
        invariant
            i <= v.len(),
            items_view(out@) == numbers8(v@.take(i as int)),
        decreases v.len() - i,
    {
        let item = Json::Number(v[i] as u64);
        proof {
            lemma_items_push(out@, item);
            assert(numbers8(v@.take(i + 1)) =~= numbers8(v@.take(i as int)).push(item@));
        }
        out.push(item);
        i += 1;
    }
    assert(v@.take(i as int) =~= v@);
    json_array(out)
}

fn grease_list(v: &Vec<u16>) -> (r: Json)
    ensures
        r@ == JsonView::Array(v@.map_values(|c: u16| grease_value(c))),
{
    let mut out: Vec<Json> = Vec::new();
    let mut i: usize = 0;
    while i < v.len()
        invariant
            i <= v.len(),
            items_view(out@) == v@.take(i as int).map_values(|c: u16| grease_value(c)),
        decreases v.len() - i,
    {
        let item = if is_not_grease(&v[i]) {
            Json::Number(v[i] as u64)
        } else {
            Json::Str("GREASE".to_owned())
        };
        proof {
            lemma_items_push(out@, item);
            assert(v@.take(i + 1).map_values(|c: u16| grease_value(c)) =~= v@.take(
                i as int,
            ).map_values(|c: u16| grease_value(c)).push(item@));
        }
        out.push(item);
        i += 1;
    }
    assert(v@.take(i as int) =~= v@);
    json_array(out)
}

fn non_grease_u16s(v: &Vec<u16>) -> (r: Vec<u16>)
    ensures
        r@ == non_grease(v@),
{
    let mut out: Vec<u16> = Vec::new();
    let mut i: usize = 0;
    while i < v.len()
        invariant
            i <= v.len(),
            out@ == non_grease(v@.take(i as int)),
        decreases v.len() - i,
    {
        assert(v@.take(i + 1).drop_last() =~= v@.take(i as int));
        if is_not_grease(&v[i]) {
            out.push(v[i]);
        }
        i += 1;
    }
    assert(v@.take(i as int) =~= v@);
    out
}

fn read_alpn_entries(d: &[u8], a: usize, b: usize) -> (r: Vec<Vec<u8>>)
    requires
        a <= b <= d@.len(),
    ensures
        r.deep_view() == alpn_entries(d@.subrange(a as int, b as int)),
    decreases b - a,
{
    let ghost s = d@.subrange(a as int, b as int);
    if a == b || 1 + (d[a] as usize) > b - a {
        return Vec::new();
    }
    let l = d[a] as usize;
    assert(s[0] == d@[a as int]);
    let name = copy_range(d, a + 1, a + 1 + l);
    assert(name@ =~= s.subrange(1, 1 + l));
    assert(name.deep_view() =~= name@);
    let mut rest = read_alpn_entries(d, a + 1 + l, b);
    assert(s.subrange(1 + l, s.len() as int) =~= d@.subrange(a + 1 + l, b as int));
    let mut out: Vec<Vec<u8>> = Vec::new();
    out.push(name);
    let ghost rv = rest.deep_view();
    out.append(&mut rest);
    assert(out.deep_view() =~= seq![s.subrange(1, 1 + l)] + rv);
    out
}

fn read_alpn_names(data: &Vec<u8>) -> (r: Vec<Json>)
    ensures
        items_view(r@) == alpn_names(data@).map_values(|s: Seq<char>| JsonView::Str(s)),
{
    let d = data.as_slice();
    let entries = if d.len() >= 2 && 2 + read_be16(d, 0) <= d.len() {
        read_alpn_entries(d, 2, 2 + read_be16(d, 0))
    } else {
        Vec::new()
    };
    let ghost ev = entries.deep_view();
    assert(ev == if data@.len() >= 2 && 2 + be16(data@, 0) <= data@.len() {
        alpn_entries(data@.subrange(2, 2 + be16(data@, 0)))
    } else {
        Seq::empty()
    });
    let mut out: Vec<Json> = Vec::new();
    let mut i: usize = 0;
    while i < entries.len()
        invariant
            i <= entries.len(),
            ev == entries.deep_view(),
            items_view(out@) == utf8_names(ev.take(i as int)).map_values(
                |s: Seq<char>| JsonView::Str(s),
            ),
        decreases entries.len() - i,
    {
        assert(ev.take(i + 1).drop_last() =~= ev.take(i as int));
        assert(entries@[i as int].deep_view() =~= entries@[i as int]@);
        assert(ev.take(i + 1).last() == entries@[i as int]@);
        let bytes = entries[i].clone();
        assert(bytes@ == entries@[i as int]@);
        match utf8_decode(bytes) {
            Some(s) => {
                let item = Json::Str(s);
                proof {
                    lemma_items_push(out@, item);
                    assert(utf8_names(ev.take(i + 1)).map_values(|s: Seq<char>| JsonView::Str(s))
                        =~= utf8_names(ev.take(i as int)).map_values(
                        |s: Seq<char>| JsonView::Str(s),
                    ).push(item@));
                }
                out.push(item);
            },
            None => {
                assert(utf8_names(ev.take(i + 1)) =~= utf8_names(ev.take(i as int)));
            },
        }
        i += 1;
    }
    assert(ev.take(i as int) =~= ev);
    out
}

/// The TS1 record of one extension.
pub fn ext_json(e: &Extension) -> (r: Json)
    requires
        e.data@.len() < 65536,
    ensures
        r@ == JsonView::Object(ext_members(e@)),
{
    let mut m: Vec<Member> = Vec::new();
    let len = e.data.len() as u64;
    let t = e.typ;
    if t == 0 {
        push_member(&mut m, "type", Json::Str("server_name".to_owned()));
    } else if t == 21 {
        push_member(&mut m, "type", Json::Str("padding".to_owned()));
    } else if t == 5 {
        push_member(&mut m, "length", Json::Number(len));
        push_member(&mut m, "type", Json::Str("status_request".to_owned()));
        let first = if e.data.len() > 0 { e.data[0] as u64 } else { 0 };
        push_member(&mut m, "status_request_type", Json::Number(first));
    } else if t == 10 {
        push_member(&mut m, "length", Json::Number(len));
        push_member(&mut m, "type", Json::Str("supported_groups".to_owned()));
        let groups = read_prefixed_u16s(&e.data);
        let groups = non_grease_u16s(&groups);
        push_member(&mut m, "supported_groups", u16_numbers(&groups));
    } else if t == 11 {
        push_member(&mut m, "length", Json::Number(len));
        push_member(&mut m, "type", Json::Str("ec_point_formats".to_owned()));
        let points = read_prefixed_u8s(&e.data);
        push_member(&mut m, "ec_point_formats", u8_numbers(&points));
    } else if t == 13 {
        push_member(&mut m, "length", Json::Number(len));
        push_member(&mut m, "type", Json::Str("signature_algorithms".to_owned()));
        let algs = read_prefixed_u16s(&e.data);
        push_member(&mut m, "sig_hash_algs", u16_numbers(&algs));
    } else if t == 16 {
        push_member(&mut m, "length", Json::Number(len));
        push_member(&mut m, "type", Json::Str("application_layer_protocol_negotiation".to_owned()));
        let names = read_alpn_names(&e.data);
        push_member(&mut m, "alpn_list", json_array(names));
    } else if t == 22 {
        push_member(&mut m, "length", Json::Number(len));
        push_member(&mut m, "type", Json::Str("encrypt_then_mac".to_owned()));
    } else if !is_not_grease(&t) {
        let b = base64_encode(e.data.as_slice());
        push_member(&mut m, "length", Json::Number(b.unicode_len() as u64));
        push_member(&mut m, "type", Json::Str("GREASE".to_owned()));
        if b.unicode_len() > 0 {
            push_member(&mut m, "data", Json::Str(b));
        }
    } else {
        push_member(&mut m, "length", Json::Number(len));
        push_member(&mut m, "type", Json::Number(t as u64));
    }
    assert(members_view(m@) =~= ext_members(e@));
    json_object(m)
}

/// The TS1 value of a ClientHello.
pub fn hello_value(h: &TlsHandshake) -> (r: Json)
    requires
        wire_sized(h@),
    ensures
        r@ == hello_json(h@),
{
    let mut exts: Vec<Json> = Vec::new();
    let mut i: usize = 0;
    while i < h.extensions.len()
        invariant
            i <= h.extensions.len(),
            wire_sized(h@),
            items_view(exts@) == h@.extensions.take(i as int).map_values(
                |e: ExtensionView| JsonView::Object(ext_members(e)),
            ),
        decreases h.extensions.len() - i,
    {
        assert(h@.extensions[i as int] == h.extensions@[i as int]@);
        assert(h@.extensions[i as int].data.len() < 65536);
        let item = ext_json(&h.extensions[i]);
        proof {
            lemma_items_push(exts@, item);
            assert(h@.extensions.take(i + 1).map_values(
                |e: ExtensionView| JsonView::Object(ext_members(e)),
            ) =~= h@.extensions.take(i as int).map_values(
                |e: ExtensionView| JsonView::Object(ext_members(e)),
            ).push(item@));
        }
        exts.push(item);
        i += 1;
    }
    assert(h@.extensions.take(i as int) =~= h@.extensions);
    let mut m: Vec<Member> = Vec::new();
    push_member(&mut m, "record_version", Json::Str(version_text(h.record_version)));
    push_member(&mut m, "handshake_version", Json::Str(version_text(h.handshake_version)));
    push_member(&mut m, "ciphersuites", grease_list(&h.cipher_suites));
    push_member(&mut m, "comp_methods", u8_numbers(&h.compression_methods));
    push_member(&mut m, "extensions", json_array(exts));
    push_member(&mut m, "sesion_id_length", Json::Number(h.session_id_length as u64));
    let inner = json_object(m);
    let mut top: Vec<Member> = Vec::new();
    push_member(&mut top, "client_hello", inner);
    assert(members_view(m@) =~= match hello_json(h@) {
        JsonView::Object(x) => match x[0].1 {
            JsonView::Object(y) => y,
            _ => Seq::empty(),
        },
        _ => Seq::empty(),
    });
    assert(members_view(top@) =~= match hello_json(h@) {
        JsonView::Object(x) => x,
        _ => Seq::empty(),
    });
    json_object(top)
}

fn version_text(v: u16) -> (r: String)
    ensures
        r@ == version_name(v),
{
    if v == 0x0301 {
        "TLS_VERSION_1_0".to_owned()
    } else if v == 0x0302 {
        "TLS_VERSION_1_1".to_owned()
    } else if v == 0x0303 {
        "TLS_VERSION_1_2".to_owned()
    } else if v == 0x0304 {
        "TLS_VERSION_1_3".to_owned()
    } else {
        "".to_owned()
    }
}

/// A TS1 signature: the canonical text and its SHA-1.
#[derive(Clone, Debug)]
pub struct Ts1Tls {
    pub sha1: String,
    pub text: String,
}

impl Ts1Tls {
    /// The TS1 signature of a ClientHello.
    pub fn new(handshake: &TlsHandshake) -> (r: Self)
        requires
            wire_sized(handshake@),
        ensures
            r.text@ == canon(hello_json(handshake@)),
            r.sha1@ == sha1_hex_of(r.text@),
    {
        let value = hello_value(handshake);
        let text = canonical_json(&value);
        let sha1 = sha1_hex(text.as_str());
        Ts1Tls { sha1, text }
    }
}

pub open spec fn frame_type_member(name: Seq<char>) -> (Seq<char>, JsonView) {
    ("frame_type"@, JsonView::Str(name))
}

pub open spec fn stream_member(id: u32) -> (Seq<char>, JsonView) {
    ("stream_id"@, JsonView::Number(id as nat))
}

/// The TS1 record of a setting.
pub open spec fn setting_json(st: Setting) -> JsonView {
    JsonView::Object(
        seq![("id"@, JsonView::Number(st.id as nat)), ("value"@, JsonView::Number(st.value as nat))],
    )
}

/// The TS1 record of a frame: its kind and decoded fields; another type
/// keeps its numeric code alone.
pub open spec fn frame_json(f: FrameView) -> JsonView {
    match f {
        FrameView::Headers { stream_id, pseudo_headers } => JsonView::Object(
            seq![
                frame_type_member("HEADERS"@),
                stream_member(stream_id),
                (
                    "pseudo_headers"@,
                    JsonView::Array(pseudo_headers.map_values(|s: Seq<char>| JsonView::Str(s))),
                ),
            ],
        ),
        FrameView::Settings { stream_id, settings } => JsonView::Object(
            seq![
                frame_type_member("SETTINGS"@),
                stream_member(stream_id),
                ("settings"@, JsonView::Array(settings.map_values(|st: Setting| setting_json(st)))),
            ],
        ),
        FrameView::Priority(p) => JsonView::Object(
            seq![
                frame_type_member("PRIORITY"@),
                stream_member(p.stream_id),
                (
                    "priority"@,
                    JsonView::Object(
                        seq![
                            ("dep_stream_id"@, JsonView::Number(p.priority.dep_stream_id as nat)),
                            ("weight"@, JsonView::Number(p.priority.weight as nat)),
                            ("exclusive"@, JsonView::Bool(p.priority.exclusive)),
                        ],
                    ),
                ),
            ],
        ),
        FrameView::WindowUpdate(w) => JsonView::Object(
            seq![
                frame_type_member("WINDOW_UPDATE"@),
                stream_member(w.stream_id),
                ("window_size_increment"@, JsonView::Number(w.window_size_increment as nat)),
            ],
        ),
        FrameView::Unknown(t) => JsonView::Object(seq![("frame_type"@, JsonView::Number(t as nat))]),
    }
}

/// The TS1 value of a frame log.
pub open spec fn frames_json(fs: Seq<FrameView>) -> JsonView {
    JsonView::Array(fs.map_values(|f: FrameView| frame_json(f)))
}

fn string_list(v: &Vec<String>) -> (r: Json)
    ensures
        r@ == JsonView::Array(v.deep_view().map_values(|s: Seq<char>| JsonView::Str(s))),
{
    let ghost want = v.deep_view().map_values(|s: Seq<char>| JsonView::Str(s));
    let mut out: Vec<Json> = Vec::new();
    let mut i: usize = 0;
    while i < v.len()
        invariant
            i <= v.len(),
            want == v.deep_view().map_values(|s: Seq<char>| JsonView::Str(s)),
            items_view(out@) == want.take(i as int),
        decreases v.len() - i,
    {
        let item = Json::Str(v[i].clone());
        proof {
            lemma_items_push(out@, item);
            assert(want.take(i + 1) =~= want.take(i as int).push(item@));
        }
        out.push(item);
        i += 1;
    }
    assert(want.take(i as int) =~= want);
    json_array(out)
}

fn settings_list(v: &Vec<Setting>) -> (r: Json)
    ensures
        r@ == JsonView::Array(v@.map_values(|st: Setting| setting_json(st))),
{
    let ghost want = v@.map_values(|st: Setting| setting_json(st));
    let mut out: Vec<Json> = Vec::new();
    let mut i: usize = 0;
    while i < v.len()
        invariant
            i <= v.len(),
            want == v@.map_values(|st: Setting| setting_json(st)),
            items_view(out@) == want.take(i as int),
        decreases v.len() - i,
    {
        let st = v[i];
        let mut m: Vec<Member> = Vec::new();
        push_member(&mut m, "id", Json::Number(st.id as u64));
        push_member(&mut m, "value", Json::Number(st.value as u64));
        assert(members_view(m@) =~= seq![
            ("id"@, JsonView::Number(st.id as nat)),
            ("value"@, JsonView::Number(st.value as nat)),
        ]);
        let item = json_object(m);
        proof {
            lemma_items_push(out@, item);
            assert(want.take(i + 1) =~= want.take(i as int).push(item@));
        }
        out.push(item);
        i += 1;
    }
    assert(want.take(i as int) =~= want);
    json_array(out)
}

/// The TS1 record of one frame.
pub fn frame_value(f: &Frame) -> (r: Json)
    ensures
        r@ == frame_json(f@),
{
    let mut m: Vec<Member> = Vec::new();
    match f {
        Frame::Headers(h) => {
            push_member(&mut m, "frame_type", Json::Str("HEADERS".to_owned()));
            push_member(&mut m, "stream_id", Json::Number(h.stream_id as u64));
            push_member(&mut m, "pseudo_headers", string_list(&h.pseudo_headers));
        },
        Frame::Settings(st) => {
            push_member(&mut m, "frame_type", Json::Str("SETTINGS".to_owned()));
            push_member(&mut m, "stream_id", Json::Number(st.stream_id as u64));
            push_member(&mut m, "settings", settings_list(&st.settings));
        },
        Frame::Priority(p) => {
            push_member(&mut m, "frame_type", Json::Str("PRIORITY".to_owned()));
            push_member(&mut m, "stream_id", Json::Number(p.stream_id as u64));
            let mut q: Vec<Member> = Vec::new();
            push_member(&mut q, "dep_stream_id", Json::Number(p.priority.dep_stream_id as u64));
            push_member(&mut q, "weight", Json::Number(p.priority.weight as u64));
            push_member(&mut q, "exclusive", Json::Bool(p.priority.exclusive));
            assert(members_view(q@) =~= seq![
                ("dep_stream_id"@, JsonView::Number(p.priority.dep_stream_id as nat)),
                ("weight"@, JsonView::Number(p.priority.weight as nat)),
                ("exclusive"@, JsonView::Bool(p.priority.exclusive)),
            ]);
            push_member(&mut m, "priority", json_object(q));
        },
        Frame::WindowUpdate(w) => {
            push_member(&mut m, "frame_type", Json::Str("WINDOW_UPDATE".to_owned()));
            push_member(&mut m, "stream_id", Json::Number(w.stream_id as u64));
            push_member(&mut m, "window_size_increment", Json::Number(w.window_size_increment as u64));
        },
        Frame::Unknown(t) => {
            push_member(&mut m, "frame_type", Json::Number(*t as u64));
        },
    }
    assert(members_view(m@) =~= match frame_json(f@) {
        JsonView::Object(x) => x,
        _ => Seq::empty(),
    });
    json_object(m)
}

/// The TS1 value of a frame log.
pub fn frames_value(frames: &[Frame]) -> (r: Json)
    ensures
        r@ == frames_json(frames_view(frames@)),
{
    let ghost want = frames_view(frames@).map_values(|f: FrameView| frame_json(f));
    let mut out: Vec<Json> = Vec::new();
    let mut i: usize = 0;
    while i < frames.len()
        invariant
            i <= frames.len(),
            want == frames_view(frames@).map_values(|f: FrameView| frame_json(f)),
            items_view(out@) == want.take(i as int),
        decreases frames.len() - i,
    {
        let item = frame_value(&frames[i]);
        proof {
            lemma_items_push(out@, item);
            assert(want.take(i + 1) =~= want.take(i as int).push(item@));
        }
        out.push(item);
        i += 1;
    }
    assert(want.take(i as int) =~= want);
    json_array(out)
}

/// A TS1 signature of a frame log: the canonical text and its SHA-1.
#[derive(Clone, Debug)]
pub struct Ts1Http2 {
    pub sha1: String,
    pub text: String,
}

impl Ts1Http2 {
    /// The TS1 signature of a frame log.
    pub fn new(frames: &[Frame]) -> (r: Self)
        ensures
            r.text@ == canon(frames_json(frames_view(frames@))),
            r.sha1@ == sha1_hex_of(r.text@),
    {
        let value = frames_value(frames);
        let text = canonical_json(&value);
        let sha1 = sha1_hex(text.as_str());
        Ts1Http2 { sha1, text }
    }
}

} // verus!
