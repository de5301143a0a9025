//! ClientHello capture: the record decoder and the sniffer that feeds it.
use vstd::prelude::*;
use vstd::slice::slice_subrange;
use rustls::internal::msgs::codec::Codec;
use rustls::internal::msgs::handshake::ClientHelloPayload;
use crate::wire::{be16, be24, copy_range, read_be16, read_be24, read_u16_list, u16_list};

verus! {

/// Whether a 16-bit code is outside the GREASE pattern `0x?A?A`.
pub fn is_not_grease(v: &u16) -> (r: bool)
    ensures
        r == !is_grease(*v),
{
    *v & 0x0f0f != 0x0a0a
}

/// A code reserved by GREASE: both low nibbles of its bytes are `0xA`.
pub open spec fn is_grease(v: u16) -> bool {
    v & 0x0f0f == 0x0a0a
}

/// One extension of a ClientHello: its type code and its payload.
#[derive(Clone, Debug)]
pub struct Extension {
    pub typ: u16,
    pub data: Vec<u8>,
}

/// The model of an extension.
pub struct ExtensionView {
    pub typ: u16,
    pub data: Seq<u8>,
}

impl View for Extension {
    type V = ExtensionView;

    open spec fn view(&self) -> ExtensionView {
        ExtensionView { typ: self.typ, data: self.data@ }
    }
}

/// A captured ClientHello, as the wire carried it.
#[derive(Clone, Debug)]
pub struct TlsHandshake {
    pub record_version: u16,
    pub handshake_version: u16,
    pub session_id_length: usize,
    pub cipher_suites: Vec<u16>,
    pub compression_methods: Vec<u8>,
    pub extensions: Vec<Extension>,
}

/// The model of a ClientHello.
pub struct HelloView {
    pub record_version: u16,
    pub handshake_version: u16,
    pub session_id_length: nat,
    pub cipher_suites: Seq<u16>,
    pub compression_methods: Seq<u8>,
    pub extensions: Seq<ExtensionView>,
}

impl View for TlsHandshake {
    type V = HelloView;

    open spec fn view(&self) -> HelloView {
        HelloView {
            record_version: self.record_version,
            handshake_version: self.handshake_version,
            session_id_length: self.session_id_length as nat,
            cipher_suites: self.cipher_suites@,
            compression_methods: self.compression_methods@,
            extensions: self.extensions@.map_values(|e: Extension| e@),
        }
    }
}

/// Every extension payload fits the 16-bit length that carried it.
pub open spec fn wire_sized(h: HelloView) -> bool {
    forall|i: int| 0 <= i < h.extensions.len() ==> #[trigger] h.extensions[i].data.len() < 65536
}

impl TlsHandshake {
    /// Whether every extension payload fits a 16-bit length, as on the wire.
    pub fn fits_wire(&self) -> (r: bool)
        ensures
            r == wire_sized(self@),
    {
        let mut i: usize = 0;
        while i < self.extensions.len()
            invariant
                i <= self.extensions.len(),
                forall|k: int| 0 <= k < i ==> #[trigger] self@.extensions[k].data.len() < 65536,
            decreases self.extensions.len() - i,
        {
            assert(self@.extensions[i as int] == self.extensions@[i as int]@);
            if self.extensions[i].data.len() >= 65536 {
                assert(self@.extensions[i as int].data.len() >= 65536);
                return false;
            }
            i += 1;
        }
        true
    }
}

/// A decoded ClientHello has payloads that fit their 16-bit lengths.
pub proof fn lemma_scan_sized(d: Seq<u8>)
    ensures
        scan_hello(d) is Hello ==> wire_sized(scan_hello(d)->Hello_0),
{
    if scan_hello(d) is Hello {
        let h = scan_hello(d)->Hello_0;
        let r = d.subrange(5, 5 + be16(d, 3));
        let f = client_hello_fields(r.subrange(4, 4 + be24(r, 1)))->0;
        assert forall|i: int| 0 <= i < h.extensions.len() implies #[trigger] h.extensions[i].data.len()
            < 65536 by {
            assert(h.extensions[i] == ext_of_encoding(f.extensions[i]));
        }
    }
}

/// What the bytes at the start of a connection hold so far.
pub enum HelloScan {
    /// More bytes are needed to decide.
    Incomplete,
    /// The first record is not a ClientHello.
    NotHello,
    Hello(TlsHandshake),
}

/// The model of a `HelloScan`.
pub enum ScanView {
    Incomplete,
    NotHello,
    Hello(HelloView),
}

impl View for HelloScan {
    type V = ScanView;

    open spec fn view(&self) -> ScanView {
        match self {
            HelloScan::Incomplete => ScanView::Incomplete,
            HelloScan::NotHello => ScanView::NotHello,
            HelloScan::Hello(h) => ScanView::Hello(h@),
        }
    }
}

/// The fields of a ClientHello body as the TLS library decodes them.
pub struct HelloFields {
    pub version: u16,
    pub session_id_length: usize,
    pub cipher_suites: Vec<u16>,
    pub compression_methods: Vec<u8>,
    /// Each extension as encoded: type, length, payload.
    pub extensions: Vec<Vec<u8>>,
}

/// The model of `HelloFields`.
pub struct FieldsView {
    pub version: u16,
    pub session_id_length: nat,
    pub cipher_suites: Seq<u16>,
    pub compression_methods: Seq<u8>,
    pub extensions: Seq<Seq<u8>>,
}

impl View for HelloFields {
    type V = FieldsView;

    open spec fn view(&self) -> FieldsView {
        FieldsView {
            version: self.version,
            session_id_length: self.session_id_length as nat,
            cipher_suites: self.cipher_suites@,
            compression_methods: self.compression_methods@,
            extensions: self.extensions.deep_view(),
        }
    }
}

/// The fields that rustls decodes from a ClientHello body, or `None` where
/// it refuses the body.
pub uninterp spec fn client_hello_fields(body: Seq<u8>) -> Option<FieldsView>;

/// Relies on rustls's `ClientHelloPayload::read_bytes`: the result depends
/// on the body alone; each extension's encoding starts with its 16-bit type
/// and 16-bit length.
#[verifier::external_body]
fn read_client_hello(body: &[u8]) -> (r: Option<HelloFields>)
    ensures
        match client_hello_fields(body@) {
            Some(f) => r is Some && r->0@ == f,
            None => r is None,
        },
        r is Some ==> forall|k: int|
            0 <= k < r->0.extensions@.len() ==> #[trigger] r->0.extensions@[k]@.len() >= 4,
{
    let p = ClientHelloPayload::read_bytes(body).ok()?;
    Some(HelloFields {
        version: p.client_version.get_u16(),
        session_id_length: p.session_id.len(),
        cipher_suites: p.cipher_suites.iter().map(|c| c.get_u16()).collect(),
        compression_methods: p.compression_methods.iter().map(|c| c.get_u8()).collect(),
        extensions: p.extensions.iter().map(|e| e.get_encoding()).collect(),
    })
}

/// An extension from its encoding: the 16-bit type, then the payload after
/// the 16-bit length.
pub open spec fn ext_of_encoding(e: Seq<u8>) -> ExtensionView {
    ExtensionView { typ: be16(e, 0) as u16, data: e.subrange(4, e.len() as int) }
}

/// The ClientHello that decoded fields give, the record version left zero;
/// `None` where an encoding is shorter than its header or its payload does
/// not fit a 16-bit length.
pub open spec fn hello_of_fields(f: Option<FieldsView>) -> Option<HelloView> {
    match f {
        Some(f) => if forall|k: int|
            0 <= k < f.extensions.len() ==> 4 <= #[trigger] f.extensions[k].len() < 65540 {
            Some(
                HelloView {
                    record_version: 0,
                    handshake_version: f.version,
                    session_id_length: f.session_id_length,
                    cipher_suites: f.cipher_suites,
                    compression_methods: f.compression_methods,
                    extensions: f.extensions.map_values(|e: Seq<u8>| ext_of_encoding(e)),
                },
            )
        } else {
            None
        },
        None => None,
    }
}

/// The handshake message at the start of a record body: type 1
/// (ClientHello), a 24-bit length, and a body inside the record that the
/// TLS library decodes.
pub open spec fn hello_message(r: Seq<u8>) -> Option<HelloView> {
    if r.len() < 4 || r[0] != 1 || r.len() < 4 + be24(r, 1) {
        None
    } else {
        hello_of_fields(client_hello_fields(r.subrange(4, 4 + be24(r, 1))))
    }
}

/// What the first bytes of a connection hold: a handshake record (type 22)
/// with a 16-bit record version and a 16-bit length, whose body is a
/// ClientHello; short input is `Incomplete`.
pub open spec fn scan_hello(d: Seq<u8>) -> ScanView {
    if d.len() == 0 {
        ScanView::Incomplete
    } else if d[0] != 22 {
        ScanView::NotHello
    } else if d.len() < 5 || d.len() < 5 + be16(d, 3) {
        ScanView::Incomplete
    } else {
        match hello_message(d.subrange(5, 5 + be16(d, 3))) {
            Some(h) => ScanView::Hello(HelloView { record_version: be16(d, 1) as u16, ..h }),
            None => ScanView::NotHello,
        }
    }
}

/// The ClientHello of decoded fields, as `hello_of_fields` says.
fn hello_from_fields(f: HelloFields) -> (r: Option<TlsHandshake>)
    requires
        forall|k: int| 0 <= k < f.extensions@.len() ==> #[trigger] f.extensions@[k]@.len() >= 4,
    ensures
        match hello_of_fields(Some(f@)) {
            Some(h) => r is Some && r->0@ == h,
            None => r is None,
        },
{
    let ghost fv = f@;
    let ghost want = fv.extensions.map_values(|e: Seq<u8>| ext_of_encoding(e));
    let mut exts: Vec<Extension> = Vec::new();
    let mut i: usize = 0;
    while i < f.extensions.len()
        invariant
            i <= f.extensions@.len(),
            fv == f@,
            want == fv.extensions.map_values(|e: Seq<u8>| ext_of_encoding(e)),
            forall|k: int| 0 <= k < f.extensions@.len() ==> #[trigger] f.extensions@[k]@.len() >= 4,
            forall|k: int| 0 <= k < i ==> 4 <= #[trigger] fv.extensions[k].len() < 65540,
            exts@.map_values(|e: Extension| e@) == want.take(i as int),
        decreases f.extensions.len() - i,
    {
        let e = f.extensions[i].as_slice();
        assert(fv.extensions[i as int] == e@);
        if e.len() - 4 >= 65536 {
            assert(!(4 <= fv.extensions[i as int].len() < 65540));
            return None;
        }
        let typ = read_be16(e, 0);
        let data = copy_range(e, 4, e.len());
        let ext = Extension { typ: typ as u16, data };
        let ghost before = exts@;
        exts.push(ext);
        assert(ext@ == ext_of_encoding(e@));
        assert(exts@.map_values(|e: Extension| e@) =~= before.map_values(|e: Extension| e@).push(
            ext@,
        ));
        assert(want.take(i + 1) =~= want.take(i as int).push(want[i as int]));
        i += 1;
    }
    assert(want.take(i as int) =~= want);
    Some(
        TlsHandshake {
            record_version: 0,
            handshake_version: f.version,
            session_id_length: f.session_id_length,
            cipher_suites: f.cipher_suites,
            compression_methods: f.compression_methods,
            extensions: exts,
        },
    )
}

/// Decodes the ClientHello at the start of `data`: `Incomplete` while the
/// first record is not all there, `NotHello` when it is something else.
pub fn parse_client_hello(data: &[u8]) -> (r: HelloScan)
    ensures
        r@ == scan_hello(data@),
{
    let n = data.len();
    if n == 0 {
        return HelloScan::Incomplete;
    }
    if data[0] != 22 {
        return HelloScan::NotHello;
    }
    if n < 5 {
        return HelloScan::Incomplete;
    }
    let rl = read_be16(data, 3);
    if n < 5 + rl {
        return HelloScan::Incomplete;
    }
    let ghost r = data@.subrange(5, 5 + rl);
    if rl < 4 || data[5] != 1 {
        return HelloScan::NotHello;
    }
    let hl = read_be24(data, 6);
    assert(hl == be24(r, 1));
    if rl < 4 + hl {
        return HelloScan::NotHello;
    }
    assert(r.subrange(4, 4 + hl) =~= data@.subrange(9, 9 + hl));
    let fields = match read_client_hello(slice_subrange(data, 9, 9 + hl)) {
        None => return HelloScan::NotHello,
        Some(f) => f,
    };
    match hello_from_fields(fields) {
        None => HelloScan::NotHello,
        Some(mut h) => {
            h.record_version = read_be16(data, 1) as u16;
            HelloScan::Hello(h)
        },
    }
}

/// A list of 16-bit codes behind a 16-bit byte length, as in the
/// supported-groups and signature-algorithms extensions. A length that
/// runs past the payload gives the empty list.
pub open spec fn prefixed_u16s(data: Seq<u8>) -> Seq<u16> {
    if data.len() >= 2 && 2 + be16(data, 0) <= data.len() {
        u16_list(data.subrange(2, 2 + be16(data, 0)))
    } else {
        Seq::empty()
    }
}

/// A list of 8-bit codes behind an 8-bit length, as in the point-formats
/// extension. A length that runs past the payload gives the empty list.
pub open spec fn prefixed_u8s(data: Seq<u8>) -> Seq<u8> {
    if data.len() >= 1 && 1 + data[0] <= data.len() {
        data.subrange(1, 1 + data[0] as int)
    } else {
        Seq::empty()
    }
}

/// Decodes `prefixed_u16s`.
pub fn read_prefixed_u16s(data: &Vec<u8>) -> (r: Vec<u16>)
    ensures
        r@ == prefixed_u16s(data@),
{
    let d = data.as_slice();
    if d.len() >= 2 {
        let l = read_be16(d, 0);
        if 2 + l <= d.len() {
            return read_u16_list(d, 2, 2 + l);
        }
    }
    Vec::new()
}

/// Decodes `prefixed_u8s`.
pub fn read_prefixed_u8s(data: &Vec<u8>) -> (r: Vec<u8>)
    ensures
        r@ == prefixed_u8s(data@),
{
    let d = data.as_slice();
    if d.len() >= 1 && 1 + (d[0] as usize) <= d.len() {
        return copy_range(d, 1, 1 + d[0] as usize);
    }
    Vec::new()
}

/// Extension type of the supported groups (named curves).
pub const SUPPORTED_GROUPS: u16 = 10;

/// Extension type of the elliptic-curve point formats.
pub const EC_POINT_FORMATS: u16 = 11;

/// The group codes of all supported-groups extensions, in wire order.
pub open spec fn supported_groups(exts: Seq<ExtensionView>) -> Seq<u16>
    decreases exts.len(),
{
    if exts.len() == 0 {
        Seq::empty()
    } else {
        supported_groups(exts.drop_last()) + if exts.last().typ == SUPPORTED_GROUPS {
            prefixed_u16s(exts.last().data)
        } else {
            Seq::empty()
        }
    }
}

/// The point-format codes of all point-formats extensions, in wire order.
pub open spec fn point_formats(exts: Seq<ExtensionView>) -> Seq<u8>
    decreases exts.len(),
{
    if exts.len() == 0 {
        Seq::empty()
    } else {
        point_formats(exts.drop_last()) + if exts.last().typ == EC_POINT_FORMATS {
            prefixed_u8s(exts.last().data)
        } else {
            Seq::empty()
        }
    }
}

/// Collects `supported_groups` of the extensions.
pub fn read_supported_groups(exts: &Vec<Extension>) -> (r: Vec<u16>)
    ensures
        r@ == supported_groups(exts@.map_values(|e: Extension| e@)),
{
    let ghost ev = exts@.map_values(|e: Extension| e@);
    let mut out: Vec<u16> = Vec::new();
    let mut i: usize = 0;
    while i < exts.len()
        invariant
            i <= exts.len(),
            ev == exts@.map_values(|e: Extension| e@),
            out@ == supported_groups(ev.take(i as int)),
        decreases exts.len() - i,
    {
        assert(ev.take(i + 1).drop_last() =~= ev.take(i as int));
        if exts[i].typ == SUPPORTED_GROUPS {
            let mut g = read_prefixed_u16s(&exts[i].data);
            out.append(&mut g);
        } else {
            assert(out@ =~= out@ + Seq::<u16>::empty());
        }
        i += 1;
    }
    assert(ev.take(i as int) =~= ev);
    out
}

/// Collects `point_formats` of the extensions.
pub fn read_point_formats(exts: &Vec<Extension>) -> (r: Vec<u8>)
    ensures
        r@ == point_formats(exts@.map_values(|e: Extension| e@)),
{
    let ghost ev = exts@.map_values(|e: Extension| e@);
    let mut out: Vec<u8> = Vec::new();
    let mut i: usize = 0;
    while i < exts.len()
        invariant
            i <= exts.len(),
            ev == exts@.map_values(|e: Extension| e@),
            out@ == point_formats(ev.take(i as int)),
        decreases exts.len() - i,
    {
        assert(ev.take(i + 1).drop_last() =~= ev.take(i as int));
        if exts[i].typ == EC_POINT_FORMATS {
            let mut g = read_prefixed_u8s(&exts[i].data);
            out.append(&mut g);
        } else {
            assert(out@ =~= out@ + Seq::<u8>::empty());
        }
        i += 1;
    }
    assert(ev.take(i as int) =~= ev);
    out
}

/// The sniffer on the raw transport: it keeps the bytes read so far until
/// they decide whether the connection opens with a ClientHello.
pub struct TlsInspctor {
    /// Bytes read while the first record is incomplete.
    pub buf: Vec<u8>,
    /// The captured ClientHello; written once.
    pub handshake: Option<TlsHandshake>,
    /// Set when the first record turned out not to be a ClientHello.
    pub gave_up: bool,
}

impl TlsInspctor {
    /// While undecided, the buffer is still incomplete; once decided, it is
    /// empty.
    pub open spec fn wf(&self) -> bool {
        &&& (self.handshake is Some ==> wire_sized(self.handshake->0@))
        &&& if self.handshake is None && !self.gave_up {
            scan_hello(self.buf@) == ScanView::Incomplete
        } else {
            self.buf@.len() == 0 && !(self.handshake is Some && self.gave_up)
        }
    }

    pub fn new() -> (r: Self)
        ensures
            r.wf(),
            r.buf@.len() == 0,
            r.handshake is None,
            !r.gave_up,
    {
        TlsInspctor { buf: Vec::new(), handshake: None, gave_up: false }
    }

    /// The captured ClientHello, if any.
    pub fn handshake(&self) -> (r: Option<&TlsHandshake>)
        ensures
            r is Some == self.handshake is Some,
            r is Some ==> *r->0 == self.handshake->0,
    {
        match &self.handshake {
            Some(h) => Some(h),
            None => None,
        }
    }

    /// Takes the bytes that one read delivered. While undecided they are
    /// added to the buffer and the buffer is decoded again; once a
    /// ClientHello is captured or ruled out, nothing changes.
    pub fn observe(&mut self, bytes: &[u8])
        requires
            old(self).wf(),
        ensures
            final(self).wf(),
            old(self).handshake is Some || old(self).gave_up ==> *final(self) == *old(self),
            old(self).handshake is None && !old(self).gave_up ==> match scan_hello(
                old(self).buf@ + bytes@,
            ) {
                ScanView::Incomplete => final(self).buf@ == old(self).buf@ + bytes@
                    && final(self).handshake is None && !final(self).gave_up,
                ScanView::NotHello => final(self).gave_up && final(self).handshake is None,
                ScanView::Hello(h) => !final(self).gave_up && final(self).handshake is Some
                    && final(self).handshake->0@ == h,
            },
    {
        if self.handshake.is_some() || self.gave_up {
            return;
        }
        let mut i: usize = 0;
        let ghost start = self.buf@;
        while i < bytes.len()
            invariant
                i <= bytes.len(),
                self.buf@ == start + bytes@.take(i as int),
                self.handshake is None,
                !self.gave_up,
                start == old(self).buf@,
            decreases bytes.len() - i,
        {
            self.buf.push(bytes[i]);
            assert(start + bytes@.take(i + 1) =~= (start + bytes@.take(i as int)).push(bytes@[i as int]));
            i += 1;
        }
        assert(bytes@.take(i as int) =~= bytes@);
        proof {
            lemma_scan_sized(self.buf@);
        }
        match parse_client_hello(self.buf.as_slice()) {
            HelloScan::Incomplete => {},
            HelloScan::NotHello => {
                self.gave_up = true;
                self.buf.clear();
            },
            HelloScan::Hello(h) => {
                self.handshake = Some(h);
                self.buf.clear();
            },
        }
    }
}

} // verus!
