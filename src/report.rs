//! The report a connection gets: the TLS and HTTP/2 fingerprints.
use vstd::prelude::*;
use crate::akamai::{akamai_text, Akamai};
use crate::digest::{md5_hex_of, sha1_hex_of};
use crate::http2::{frames_view, Frame};
use crate::ja3::{ja3_text, Ja3};
use crate::json::canon;
use crate::tls::{wire_sized, TlsHandshake};
use crate::ts1::{frames_json, hello_json, Ts1Http2, Ts1Tls};

verus! {

/// The fingerprints of a ClientHello.
#[derive(Clone, Debug)]
pub struct TlsReport {
    pub ja3: Ja3,
    pub ja3_sort_ext: Ja3,
    pub ts1: Ts1Tls,
}

/// What `TlsReport::new` computes from a ClientHello.
pub open spec fn tls_report_of(r: TlsReport, h: crate::tls::HelloView) -> bool {
    &&& r.ja3.str@ == ja3_text(h, false)
    &&& r.ja3.md5@ == md5_hex_of(r.ja3.str@)
    &&& r.ja3_sort_ext.str@ == ja3_text(h, true)
    &&& r.ja3_sort_ext.md5@ == md5_hex_of(r.ja3_sort_ext.str@)
    &&& r.ts1.text@ == canon(hello_json(h))
    &&& r.ts1.sha1@ == sha1_hex_of(r.ts1.text@)
}

impl TlsReport {
    pub fn new(handshake: &TlsHandshake) -> (r: Self)
        requires
            wire_sized(handshake@),
        ensures
            tls_report_of(r, handshake@),
    {
        TlsReport {
            ja3: Ja3::new(handshake, false),
            ja3_sort_ext: Ja3::new(handshake, true),
            ts1: Ts1Tls::new(handshake),
        }
    }
}

/// The fingerprints of a frame log.
#[derive(Clone, Debug)]
pub struct Http2Report {
    pub akamai: Akamai,
    pub ts1: Ts1Http2,
}

/// What `Http2Report::new` computes from a frame log.
pub open spec fn http2_report_of(r: Http2Report, fs: Seq<crate::http2::FrameView>) -> bool {
    &&& r.akamai.str@ == akamai_text(fs)
    &&& r.akamai.sha1@ == sha1_hex_of(r.akamai.str@)
    &&& r.ts1.text@ == canon(frames_json(fs))
    &&& r.ts1.sha1@ == sha1_hex_of(r.ts1.text@)
}

impl Http2Report {
    /// The fingerprints of a frame log; `None` for an empty one.
    pub fn new(frames: &[Frame]) -> (r: Option<Self>)
        ensures
            r is None <==> frames@.len() == 0,
            r is Some ==> http2_report_of(r->0, frames_view(frames@)),
    {
        if frames.len() == 0 {
            None
        } else {
            Some(Http2Report { akamai: Akamai::new(frames), ts1: Ts1Http2::new(frames) })
        }
    }
}

/// The report of a connection.
#[derive(Clone, Debug)]
pub struct Report {
    pub tls: Option<TlsReport>,
    pub http2: Option<Http2Report>,
}

impl Report {
    /// The report from the captured ClientHello, if any, and the frame log.
    pub fn build(handshake: Option<&TlsHandshake>, frames: &[Frame]) -> (r: Self)
        requires
            handshake is Some ==> wire_sized(handshake->0@),
        ensures
            r.tls is Some <==> handshake is Some,
            r.tls is Some ==> tls_report_of(r.tls->0, handshake->0@),
            r.http2 is None <==> frames@.len() == 0,
            r.http2 is Some ==> http2_report_of(r.http2->0, frames_view(frames@)),
    {
        let tls = match handshake {
            Some(h) => Some(TlsReport::new(h)),
            None => None,
        };
        Report { tls, http2: Http2Report::new(frames) }
    }
}

} // verus!
