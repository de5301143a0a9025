//! HTTP/2 frame capture: the frame decoder and the sniffer that keeps the
//! frame log of a connection.
use vstd::prelude::*;
use crate::hpack::{hpack_framed, hpack_framed_spec};
use crate::wire::{be16, be24, be32, copy_range, read_be16, read_be24};

verus! {

/// The connection preface `PRI * HTTP/2.0\r\n\r\nSM\r\n\r\n`.
pub open spec fn preface() -> Seq<u8> {
    seq![80u8, 82, 73, 32, 42, 32, 72, 84, 84, 80, 47, 50, 46, 48, 13, 10, 13, 10, 83, 77, 13, 10, 13, 10]
}

pub const PREFACE_LEN: usize = 24;

pub const FRAME_HEADER_LEN: usize = 9;

/// Header names decoded from an HPACK block by a fresh decoder, or `None`
/// when the block does not decode.
pub uninterp spec fn hpack_names(block: Seq<u8>) -> Option<Seq<Seq<u8>>>;

/// The text that UTF-8 bytes spell, or `None` when they are not UTF-8.
pub uninterp spec fn utf8_of(b: Seq<u8>) -> Option<Seq<char>>;

/// Relies on `httlib_hpack::Decoder::decode` with a fresh default decoder:
/// the names it yields depend on the block alone. The decoder indexes past
/// the end of a block whose integers or strings run over it, so such blocks
/// are left out.
#[verifier::external_body]
fn hpack_header_names(block: &[u8]) -> (r: Option<Vec<Vec<u8>>>)
    requires
        hpack_framed_spec(block@),
    ensures
        match hpack_names(block@) {
            Some(n) => r is Some && r->0.deep_view() == n,
            None => r is None,
        },
{
    let mut decoder = httlib_hpack::Decoder::default();
    let mut buf = block.to_vec();
    let mut dst = Vec::new();
    match decoder.decode(&mut buf, &mut dst) {
        Ok(_) => Some(dst.into_iter().map(|(name, _, _)| name).collect()),
        Err(_) => None,
    }
}

/// Relies on `String::from_utf8`: the text of the bytes when they are UTF-8.
#[verifier::external_body]
pub(crate) fn utf8_decode(b: Vec<u8>) -> (r: Option<String>)
    ensures
        match utf8_of(b@) {
            Some(s) => r is Some && r->0@ == s,
            None => r is None,
        },
{
    String::from_utf8(b).ok()
}

#[derive(Clone, Debug)]
pub struct HeadersFrame {
    pub stream_id: u32,
    /// Decoded header names that begin with `:`, in wire order.
    pub pseudo_headers: Vec<String>,
}

#[derive(Clone, Copy, Debug, PartialEq, Eq, Structural)]
pub struct Setting {
    pub id: u16,
    pub value: u32,
}

#[derive(Clone, Debug)]
pub struct SettingsFrame {
    pub stream_id: u32,
    pub settings: Vec<Setting>,
}

#[derive(Clone, Copy, Debug, PartialEq, Eq, Structural)]
pub struct Priority {
    pub dep_stream_id: u32,
    pub weight: u8,
    pub exclusive: bool,
}

#[derive(Clone, Copy, Debug, PartialEq, Eq, Structural)]
pub struct PriorityFrame {
    pub stream_id: u32,
    pub priority: Priority,
}

#[derive(Clone, Copy, Debug, PartialEq, Eq, Structural)]
pub struct WindowUpdateFrame {
    pub stream_id: u32,
    pub window_size_increment: u32,
}

/// A captured frame; other frame types keep only their type code.
#[derive(Clone, Debug)]
pub enum Frame {
    Headers(HeadersFrame),
    Settings(SettingsFrame),
    Priority(PriorityFrame),
    WindowUpdate(WindowUpdateFrame),
    Unknown(u8),
}

/// The model of a frame.
pub enum FrameView {
    Headers { stream_id: u32, pseudo_headers: Seq<Seq<char>> },
    Settings { stream_id: u32, settings: Seq<Setting> },
    Priority(PriorityFrame),
    WindowUpdate(WindowUpdateFrame),
    Unknown(u8),
}

impl View for Frame {
    type V = FrameView;

    open spec fn view(&self) -> FrameView {
        match self {
            Frame::Headers(h) => FrameView::Headers {
                stream_id: h.stream_id,
                pseudo_headers: h.pseudo_headers.deep_view(),
            },
            Frame::Settings(s) => FrameView::Settings {
                stream_id: s.stream_id,
                settings: s.settings@,
            },
            Frame::Priority(p) => FrameView::Priority(*p),
            Frame::WindowUpdate(w) => FrameView::WindowUpdate(*w),
            Frame::Unknown(t) => FrameView::Unknown(*t),
        }
    }
}

/// The models of a list of frames.
pub open spec fn frames_view(v: Seq<Frame>) -> Seq<FrameView> {
    v.map_values(|f: Frame| f@)
}

/// The names among `names` that are UTF-8 and begin with `:`, in order.
pub open spec fn pseudo_names(names: Seq<Seq<u8>>) -> Seq<Seq<char>>
    decreases names.len(),
{
    if names.len() == 0 {
        Seq::empty()
    } else {
        let rest = pseudo_names(names.drop_last());
        match utf8_of(names.last()) {
            Some(s) => if s.len() > 0 && s[0] == ':' {
                rest.push(s)
            } else {
                rest
            },
            None => rest,
        }
    }
}

/// A HEADERS payload: an optional pad length (flag 0x08) and priority
/// fields (flag 0x20) before the block, padding after it. A block whose
/// integers or strings run past its end is malformed.
pub open spec fn headers_of(flags: u8, stream_id: u32, p: Seq<u8>) -> Option<FrameView> {
    let padded = flags & 0x08 != 0;
    let off = (if padded { 1int } else { 0int }) + (if flags & 0x20 != 0 { 5int } else { 0int });
    if p.len() < off {
        None
    } else {
        let pad = if padded { p[0] as int } else { 0 };
        if p.len() - off < pad {
            None
        } else {
            let block = p.subrange(off, p.len() - pad);
            if !hpack_framed_spec(block) {
                None
            } else {
                match hpack_names(block) {
                Some(names) => Some(
                    FrameView::Headers { stream_id, pseudo_headers: pseudo_names(names) },
                ),
                None => None,
            }
            }
        }
    }
}

/// The 31 low bits of the big-endian word at `i`.
pub open spec fn be31(s: Seq<u8>, i: int) -> u32 {
    ((s[i] & 0x7f) as int * 16777216 + s[i + 1] as int * 65536 + s[i + 2] as int * 256
        + s[i + 3] as int) as u32
}

/// The frame that a payload of type `ty` decodes to; `None` where it is
/// malformed.
pub open spec fn decode_frame(ty: u8, flags: u8, stream_id: u32, p: Seq<u8>) -> Option<FrameView> {
    if ty == 1 {
        headers_of(flags, stream_id, p)
    } else if ty == 2 {
        if p.len() == 5 {
            Some(
                FrameView::Priority(
                    PriorityFrame {
                        stream_id,
                        priority: Priority {
                            dep_stream_id: be31(p, 0),
                            weight: p[4],
                            exclusive: p[0] & 0x80 != 0,
                        },
                    },
                ),
            )
        } else {
            None
        }
    } else if ty == 4 {
        Some(
            FrameView::Settings {
                stream_id,
                settings: Seq::new(
                    p.len() / 6,
                    |i: int| Setting { id: be16(p, 6 * i) as u16, value: be32(p, 6 * i + 2) as u32 },
                ),
            },
        )
    } else if ty == 8 {
        if p.len() == 4 {
            Some(FrameView::WindowUpdate(WindowUpdateFrame { stream_id, window_size_increment: be31(p, 0) }))
        } else {
            None
        }
    } else {
        Some(FrameView::Unknown(ty))
    }
}

/// Bytes taken by the frame at the start of `d`: its 9-byte header and the
/// payload length it declares; 0 while it is not all there.
pub open spec fn frame_len(d: Seq<u8>) -> int {
    if d.len() < 9 || d.len() < 9 + be24(d, 0) {
        0
    } else {
        9 + be24(d, 0)
    }
}

/// The frame at the start of `d`, which must be all there.
pub open spec fn frame_at(d: Seq<u8>) -> Option<FrameView> {
    decode_frame(d[3], d[4], be31(d, 5), d.subrange(9, frame_len(d)))
}

/// The names among decoded header names that are UTF-8 and begin with `:`,
/// in order.
pub fn pseudo_headers(names: &Vec<Vec<u8>>) -> (r: Vec<String>)
    ensures
        r.deep_view() == pseudo_names(names.deep_view()),
{
    let ghost nv = names.deep_view();
    let mut pseudo_headers: Vec<String> = Vec::new();
    let mut i: usize = 0;
    while i < names.len()
        invariant
            i <= names.len(),
            nv == names.deep_view(),
            pseudo_headers.deep_view() == pseudo_names(nv.take(i as int)),
        decreases names.len() - i,
    {
        assert(nv.take(i + 1).drop_last() =~= nv.take(i as int));
        assert(nv.take(i + 1).last() == names@[i as int]@);
        let ghost before = pseudo_headers.deep_view();
        match utf8_decode(names[i].clone()) {
            Some(s) => {
                if s.unicode_len() > 0 && s.as_str().get_char(0) == ':' {
                    pseudo_headers.push(s);
                    assert(pseudo_headers.deep_view() =~= before.push(s@));
                }
            },
            None => {},
        }
        i += 1;
    }
    assert(nv.take(i as int) =~= nv);
    pseudo_headers
}

fn parse_headers(flags: u8, stream_id: u32, p: &[u8]) -> (r: Option<Frame>)
    ensures
        match headers_of(flags, stream_id, p@) {
            Some(f) => r is Some && r->0@ == f,
            None => r is None,
        },
{
    let padded = flags & 0x08 != 0;
    let mut off: usize = 0;
    if padded {
        off += 1;
    }
    if flags & 0x20 != 0 {
        off += 5;
    }
    if p.len() < off {
        return None;
    }
    let pad: usize = if padded { p[0] as usize } else { 0 };
    if p.len() - off < pad {
        return None;
    }
    let block = vstd::slice::slice_subrange(p, off, p.len() - pad);
    if !hpack_framed(block) {
        return None;
    }
    let names = match hpack_header_names(block) {
        Some(n) => n,
        None => return None,
    };
    let pseudo_headers = pseudo_headers(&names);
    Some(Frame::Headers(HeadersFrame { stream_id, pseudo_headers }))
}

fn read_be31(d: &[u8], i: usize) -> (r: u32)
    requires
        i + 4 <= d@.len(),
    ensures
        r == be31(d@, i as int),
{
    let hi = (d[i] & 0x7f) as u32;
    hi * 16777216 + (d[i + 1] as u32) * 65536 + (d[i + 2] as u32) * 256 + (d[i + 3] as u32)
}

fn read_be32(d: &[u8], i: usize) -> (r: u32)
    requires
        i + 4 <= d@.len(),
    ensures
        r == be32(d@, i as int),
{
    (d[i] as u32) * 16777216 + (d[i + 1] as u32) * 65536 + (d[i + 2] as u32) * 256 + (d[i + 3] as u32)
}

fn parse_settings(stream_id: u32, p: &[u8]) -> (r: Frame)
    ensures
        decode_frame(4, 0, stream_id, p@) == Some(r@),
{
    let plen = p.len();
    let n = plen / 6;
    let mut settings: Vec<Setting> = Vec::new();
    let mut i: usize = 0;
    while i < n
        invariant
            n == p@.len() / 6,
            plen == p@.len(),
            i <= n,
            settings@ =~= Seq::new(
                i as nat,
                |k: int| Setting { id: be16(p@, 6 * k) as u16, value: be32(p@, 6 * k + 2) as u32 },
            ),
        decreases n - i,
    {
        assert(6 * i + 6 <= plen) by (nonlinear_arith)
            requires
                i < n,
                n == plen / 6,
        ;
        let id = read_be16(p, 6 * i) as u16;
        let value = read_be32(p, 6 * i + 2);
        settings.push(Setting { id, value });
        i += 1;
    }
    Frame::Settings(SettingsFrame { stream_id, settings })
}

/// Decodes one frame payload of type `ty`.
pub fn decode_payload(ty: u8, flags: u8, stream_id: u32, p: &[u8]) -> (r: Option<Frame>)
    ensures
        match decode_frame(ty, flags, stream_id, p@) {
            Some(f) => r is Some && r->0@ == f,
            None => r is None,
        },
{
    if ty == 1 {
        parse_headers(flags, stream_id, p)
    } else if ty == 2 {
        if p.len() != 5 {
            return None;
        }
        let priority = Priority {
            dep_stream_id: read_be31(p, 0),
            weight: p[4],
            exclusive: p[0] & 0x80 != 0,
        };
        Some(Frame::Priority(PriorityFrame { stream_id, priority }))
    } else if ty == 4 {
        Some(parse_settings(stream_id, p))
    } else if ty == 8 {
        if p.len() != 4 {
            return None;
        }
        Some(Frame::WindowUpdate(WindowUpdateFrame { stream_id, window_size_increment: read_be31(p, 0) }))
    } else {
        Some(Frame::Unknown(ty))
    }
}

/// Decodes the frame at the start of `data`: the bytes it takes (0 while
/// it is not all there) and the frame, `None` where it is malformed.
pub fn parse_frame(data: &[u8]) -> (r: (usize, Option<Frame>))
    ensures
        r.0 == frame_len(data@),
        r.0 == 0 ==> r.1 is None,
        r.0 > 0 ==> match frame_at(data@) {
            Some(f) => r.1 is Some && r.1->0@ == f,
            None => r.1 is None,
        },
{
    if data.len() < FRAME_HEADER_LEN {
        return (0, None);
    }
    let length = read_be24(data, 0);
    if data.len() - FRAME_HEADER_LEN < length {
        return (0, None);
    }
    let stream_id = read_be31(data, 5);
    let payload = vstd::slice::slice_subrange(data, FRAME_HEADER_LEN, FRAME_HEADER_LEN + length);
    (FRAME_HEADER_LEN + length, decode_payload(data[3], data[4], stream_id, payload))
}

/// The frame, if any, as a list of at most one.
pub open spec fn opt_frame(o: Option<FrameView>) -> Seq<FrameView> {
    match o {
        Some(f) => seq![f],
        None => Seq::empty(),
    }
}

/// The frames decoded from the complete frames at the start of `s`, in
/// order; malformed ones are skipped by their declared length.
pub open spec fn frames_in(s: Seq<u8>) -> Seq<FrameView>
    decreases s.len(),
{
    if frame_len(s) == 0 {
        Seq::empty()
    } else {
        opt_frame(frame_at(s)) + frames_in(s.subrange(frame_len(s), s.len() as int))
    }
}

/// `s` is a run of complete frames.
pub open spec fn whole_frames(s: Seq<u8>) -> bool
    decreases s.len(),
{
    s.len() == 0 || (frame_len(s) > 0 && whole_frames(s.subrange(frame_len(s), s.len() as int)))
}

/// The frame log of a connection whose decrypted stream so far is
/// `stream`: empty until the preface is all there or when the stream does
/// not open with it; else the frames after it.
pub open spec fn log_of(stream: Seq<u8>) -> Seq<FrameView> {
    if stream.len() < PREFACE_LEN || stream.take(PREFACE_LEN as int) != preface() {
        Seq::empty()
    } else {
        frames_in(stream.skip(PREFACE_LEN as int))
    }
}

proof fn lemma_frame_prefix(a: Seq<u8>, z: Seq<u8>)
    requires
        frame_len(a) > 0,
    ensures
        frame_len(a + z) == frame_len(a),
        frame_at(a + z) == frame_at(a),
{
    let s = a + z;
    assert(s[0] == a[0] && s[1] == a[1] && s[2] == a[2] && s[3] == a[3] && s[4] == a[4]);
    assert(s[5] == a[5] && s[6] == a[6] && s[7] == a[7] && s[8] == a[8]);
    assert(s.subrange(9, frame_len(a)) =~= a.subrange(9, frame_len(a)));
}

proof fn lemma_frame_take(s: Seq<u8>)
    requires
        frame_len(s) > 0,
    ensures
        frame_len(s.take(frame_len(s))) == frame_len(s),
        frame_at(s.take(frame_len(s))) == frame_at(s),
        whole_frames(s.take(frame_len(s))),
        frames_in(s.take(frame_len(s))) == opt_frame(frame_at(s)),
{
    let n = frame_len(s);
    let f = s.take(n);
    assert(f + s.skip(n) =~= s);
    lemma_frame_prefix(f, s.skip(n));
    assert(f.subrange(n, f.len() as int) =~= Seq::<u8>::empty());
    assert(frames_in(Seq::<u8>::empty()) == Seq::<FrameView>::empty());
    assert(whole_frames(Seq::<u8>::empty()));
    assert(opt_frame(frame_at(s)) + Seq::<FrameView>::empty() =~= opt_frame(frame_at(s)));
}

proof fn lemma_frames_concat(a: Seq<u8>, z: Seq<u8>)
    requires
        whole_frames(a),
    ensures
        frames_in(a + z) == frames_in(a) + frames_in(z),
    decreases a.len(),
{
    if a.len() == 0 {
        assert(a + z =~= z);
        assert(frames_in(a) + frames_in(z) =~= frames_in(z));
    } else {
        let n = frame_len(a);
        lemma_frame_prefix(a, z);
        let ra = a.subrange(n, a.len() as int);
        assert((a + z).subrange(n, (a + z).len() as int) =~= ra + z);
        lemma_frames_concat(ra, z);
        assert(frames_in(a + z) =~= frames_in(a) + frames_in(z));
    }
}

proof fn lemma_whole_concat(a: Seq<u8>, b: Seq<u8>)
    requires
        whole_frames(a),
        whole_frames(b),
    ensures
        whole_frames(a + b),
    decreases a.len(),
{
    if a.len() == 0 {
        assert(a + b =~= b);
    } else {
        let n = frame_len(a);
        lemma_frame_prefix(a, b);
        let ra = a.subrange(n, a.len() as int);
        assert((a + b).subrange(n, (a + b).len() as int) =~= ra + b);
        lemma_whole_concat(ra, b);
    }
}

/// More bytes only add frames after those already decoded.
pub proof fn lemma_frames_extend(a: Seq<u8>, z: Seq<u8>)
    ensures
        frames_in(a).len() <= frames_in(a + z).len(),
        frames_in(a + z).take(frames_in(a).len() as int) == frames_in(a),
    decreases a.len(),
{
    if frame_len(a) == 0 {
        assert(frames_in(a + z).take(0) =~= frames_in(a));
    } else {
        let n = frame_len(a);
        lemma_frame_prefix(a, z);
        let ra = a.subrange(n, a.len() as int);
        assert((a + z).subrange(n, (a + z).len() as int) =~= ra + z);
        lemma_frames_extend(ra, z);
        assert(frames_in(a + z).take(frames_in(a).len() as int) =~= frames_in(a));
    }
}

/// The log of a stream is a prefix of the log of any longer stream.
pub proof fn lemma_log_extend(s: Seq<u8>, t: Seq<u8>)
    ensures
        log_of(s).len() <= log_of(s + t).len(),
        log_of(s + t).take(log_of(s).len() as int) == log_of(s),
{
    if s.len() < PREFACE_LEN || s.take(PREFACE_LEN as int) != preface() {
        assert(log_of(s + t).take(0) =~= log_of(s));
    } else {
        assert((s + t).take(PREFACE_LEN as int) =~= s.take(PREFACE_LEN as int));
        assert((s + t).skip(PREFACE_LEN as int) =~= s.skip(PREFACE_LEN as int) + t);
        lemma_frames_extend(s.skip(PREFACE_LEN as int), t);
    }
}

/// The sniffer on the decrypted stream: it keeps the preface and the bytes
/// of an incomplete frame, and the log of frames decoded so far.
pub struct Http2Inspector {
    /// The preface, then the bytes not yet decoded.
    pub buf: Vec<u8>,
    /// The frame log, in wire order.
    pub frames: Vec<Frame>,
    /// Set when the stream did not open with the preface.
    pub not_http2: bool,
    /// Every byte observed so far.
    pub seen: Ghost<Seq<u8>>,
    /// The bytes after the preface already decoded into `frames`.
    pub consumed: Ghost<Seq<u8>>,
}

impl Http2Inspector {
    pub open spec fn wf(&self) -> bool {
        let seen = self.seen@;
        if seen.len() < PREFACE_LEN {
            self.buf@ == seen && self.frames@.len() == 0 && !self.not_http2
        } else if seen.take(PREFACE_LEN as int) != preface() {
            self.not_http2 && self.frames@.len() == 0
        } else {
            &&& !self.not_http2
            &&& self.buf@.len() >= PREFACE_LEN
            &&& self.buf@.take(PREFACE_LEN as int) == preface()
            &&& seen.skip(PREFACE_LEN as int) == self.consumed@ + self.buf@.skip(PREFACE_LEN as int)
            &&& whole_frames(self.consumed@)
            &&& frames_view(self.frames@) == frames_in(self.consumed@)
            &&& frame_len(self.buf@.skip(PREFACE_LEN as int)) == 0
        }
    }

    pub fn new() -> (r: Self)
        ensures
            r.wf(),
            r.seen@.len() == 0,
            r.frames@.len() == 0,
    {
        Http2Inspector {
            buf: Vec::new(),
            frames: Vec::new(),
            not_http2: false,
            seen: Ghost(Seq::empty()),
            consumed: Ghost(Seq::empty()),
        }
    }

    /// The frame log so far.
    pub fn frames(&self) -> (r: &[Frame])
        ensures
            r@ == self.frames@,
    {
        self.frames.as_slice()
    }

    /// The log is the one that the bytes observed so far determine.
    pub proof fn lemma_log(&self)
        requires
            self.wf(),
        ensures
            frames_view(self.frames@) == log_of(self.seen@),
    {
        let seen = self.seen@;
        if seen.len() < PREFACE_LEN {
            assert(frames_view(self.frames@) =~= Seq::<FrameView>::empty());
        } else if seen.take(PREFACE_LEN as int) != preface() {
            assert(frames_view(self.frames@) =~= Seq::<FrameView>::empty());
        } else {
            let tail = self.buf@.skip(PREFACE_LEN as int);
            lemma_frames_concat(self.consumed@, tail);
            assert(frames_in(tail) == Seq::<FrameView>::empty());
            assert(frames_in(self.consumed@) + frames_in(tail) =~= frames_in(self.consumed@));
        }
    }

    fn starts_with_preface(&self) -> (r: bool)
        requires
            self.buf@.len() >= PREFACE_LEN,
        ensures
            r == (self.buf@.take(PREFACE_LEN as int) == preface()),
    {
        let expected: [u8; 24] = [
            80, 82, 73, 32, 42, 32, 72, 84, 84, 80, 47, 50, 46, 48, 13, 10, 13, 10, 83, 77, 13, 10,
            13, 10,
        ];
        assert(expected@ =~= preface());
        let mut i: usize = 0;
        while i < PREFACE_LEN
            invariant
                i <= PREFACE_LEN,
                self.buf@.len() >= PREFACE_LEN,
                expected@ == preface(),
                forall|k: int| 0 <= k < i ==> self.buf@[k] == preface()[k],
            decreases PREFACE_LEN - i,
        {
            if self.buf[i] != expected[i] {
                assert(self.buf@.take(PREFACE_LEN as int)[i as int] != preface()[i as int]);
                return false;
            }
            i += 1;
        }
        assert(self.buf@.take(PREFACE_LEN as int) =~= preface());
        true
    }

    /// Decodes every complete frame after the preface into the log and
    /// keeps the rest.
    fn drain_frames(&mut self)
        requires
            old(self).buf@.len() >= PREFACE_LEN,
            old(self).buf@.take(PREFACE_LEN as int) == preface(),
            whole_frames(old(self).consumed@),
            frames_view(old(self).frames@) == frames_in(old(self).consumed@),
        ensures
            final(self).buf@.len() >= PREFACE_LEN,
            final(self).buf@.take(PREFACE_LEN as int) == preface(),
            final(self).consumed@ + final(self).buf@.skip(PREFACE_LEN as int) == old(self).consumed@
                + old(self).buf@.skip(PREFACE_LEN as int),
            whole_frames(final(self).consumed@),
            frames_view(final(self).frames@) == frames_in(final(self).consumed@),
            frame_len(final(self).buf@.skip(PREFACE_LEN as int)) == 0,
            final(self).seen == old(self).seen,
            final(self).not_http2 == old(self).not_http2,
    {
        let ghost c0 = self.consumed@;
        let ghost b = self.buf@;
        let n = self.buf.len();
        let mut pos: usize = PREFACE_LEN;
        assert(b.subrange(PREFACE_LEN as int, PREFACE_LEN as int) =~= Seq::<u8>::empty());
        assert(frames_in(Seq::<u8>::empty()) == Seq::<FrameView>::empty());
        assert(frames_in(c0) + frames_in(Seq::<u8>::empty()) =~= frames_in(c0));
        while pos < n
            invariant
                PREFACE_LEN <= pos <= n,
                n == b.len(),
                self.buf@ == b,
                self.consumed@ == c0,
                self.seen == old(self).seen,
                self.not_http2 == old(self).not_http2,
                whole_frames(c0),
                whole_frames(b.subrange(PREFACE_LEN as int, pos as int)),
                frames_view(self.frames@) == frames_in(c0) + frames_in(
                    b.subrange(PREFACE_LEN as int, pos as int),
                ),
            ensures
                PREFACE_LEN <= pos <= n,
                self.buf@ == b,
                self.consumed@ == c0,
                self.seen == old(self).seen,
                self.not_http2 == old(self).not_http2,
                whole_frames(b.subrange(PREFACE_LEN as int, pos as int)),
                frames_view(self.frames@) == frames_in(c0) + frames_in(
                    b.subrange(PREFACE_LEN as int, pos as int),
                ),
                frame_len(b.subrange(pos as int, n as int)) == 0,
            decreases n - pos,
        {
            let (len, frame) = parse_frame(vstd::slice::slice_subrange(self.buf.as_slice(), pos, n));
            if len == 0 {
                break;
            }
            proof {
                let rest = b.subrange(pos as int, n as int);
                let done = b.subrange(PREFACE_LEN as int, pos as int);
                lemma_frame_take(rest);
                let f = rest.take(len as int);
                assert(b.subrange(PREFACE_LEN as int, pos + len) =~= done + f);
                lemma_whole_concat(done, f);
                lemma_frames_concat(done, f);
            }
            let ghost fv = frames_view(self.frames@);
            match frame {
                Some(f) => {
                    self.frames.push(f);
                    assert(frames_view(self.frames@) =~= fv.push(f@));
                },
                None => {},
            }
            pos += len;
            assert(frames_view(self.frames@) =~= frames_in(c0) + frames_in(
                b.subrange(PREFACE_LEN as int, pos as int),
            ));
        }
        let ghost done = b.subrange(PREFACE_LEN as int, pos as int);
        proof {
            if pos == n {
                assert(b.subrange(pos as int, n as int).len() == 0);
            }
        }
        let mut nb = copy_range(self.buf.as_slice(), 0, PREFACE_LEN);
        let mut tail = copy_range(self.buf.as_slice(), pos, n);
        nb.append(&mut tail);
        self.buf = nb;
        self.consumed = Ghost(c0 + done);
        proof {
            lemma_whole_concat(c0, done);
            lemma_frames_concat(c0, done);
            assert(self.buf@.skip(PREFACE_LEN as int) =~= b.subrange(pos as int, n as int));
            assert(self.buf@.take(PREFACE_LEN as int) =~= b.take(PREFACE_LEN as int));
            assert(b.skip(PREFACE_LEN as int) =~= done + b.subrange(pos as int, n as int));
            assert(self.consumed@ + self.buf@.skip(PREFACE_LEN as int) =~= c0 + b.skip(
                PREFACE_LEN as int,
            ));
        }
    }

    /// Takes the decrypted bytes that one read delivered, and appends to the
    /// log every frame that is now complete.
    pub fn observe(&mut self, bytes: &[u8])
        requires
            old(self).wf(),
        ensures
            final(self).wf(),
            final(self).seen@ == old(self).seen@ + bytes@,
            frames_view(final(self).frames@) == log_of(final(self).seen@),
            old(self).frames@.len() <= final(self).frames@.len(),
            frames_view(final(self).frames@).take(old(self).frames@.len() as int) == frames_view(
                old(self).frames@,
            ),
    {
        proof {
            old(self).lemma_log();
            lemma_log_extend(old(self).seen@, bytes@);
        }
        let ghost seen = self.seen@ + bytes@;
        if self.not_http2 {
            assert(seen.take(PREFACE_LEN as int) =~= self.seen@.take(PREFACE_LEN as int));
            self.seen = Ghost(seen);
            proof {
                self.lemma_log();
            }
            return;
        }
        let ghost start = self.buf@;
        crate::wire::append_bytes(&mut self.buf, bytes);
        self.seen = Ghost(seen);
        if self.buf.len() < PREFACE_LEN {
            return;
        }
        let ghost c_start = if old(self).seen@.len() < PREFACE_LEN {
            Seq::<u8>::empty()
        } else {
            self.consumed@
        };
        self.consumed = Ghost(c_start);
        proof {
            if old(self).seen@.len() >= PREFACE_LEN {
                assert(self.buf@.take(PREFACE_LEN as int) =~= start.take(PREFACE_LEN as int));
                assert(seen.take(PREFACE_LEN as int) =~= old(self).seen@.take(PREFACE_LEN as int));
                assert(seen.skip(PREFACE_LEN as int) =~= old(self).seen@.skip(PREFACE_LEN as int)
                    + bytes@);
                assert(self.buf@.skip(PREFACE_LEN as int) =~= start.skip(PREFACE_LEN as int)
                    + bytes@);
                assert(seen.skip(PREFACE_LEN as int) =~= self.consumed@ + self.buf@.skip(
                    PREFACE_LEN as int,
                ));
            } else {
                assert(self.buf@ =~= seen);
                assert(seen.skip(PREFACE_LEN as int) =~= self.consumed@ + self.buf@.skip(
                    PREFACE_LEN as int,
                ));
                assert(frames_view(self.frames@) =~= Seq::<FrameView>::empty());
                assert(frames_in(Seq::<u8>::empty()) == Seq::<FrameView>::empty());
            }
        }
        if !self.starts_with_preface() {
            self.not_http2 = true;
            self.buf.clear();
            proof {
                self.lemma_log();
            }
            return;
        }
        self.drain_frames();
        proof {
            self.lemma_log();
        }
    }
}

/// Two sniffers that observed the same bytes, in reads split however,
/// hold the same frame log.
pub proof fn lemma_same_stream_same_log(a: &Http2Inspector, b: &Http2Inspector)
    requires
        a.wf(),
        b.wf(),
        a.seen@ == b.seen@,
    ensures
        frames_view(a.frames@) == frames_view(b.frames@),
{
    a.lemma_log();
    b.lemma_log();
}

} // verus!
