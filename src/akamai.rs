//! The Akamai HTTP/2 fingerprint of a frame log.
use vstd::prelude::*;
use crate::digest::{sha1_hex, sha1_hex_of};
use crate::http2::{frames_view, Frame, FrameView};
use crate::text::{dec, join, push_dec, push_joined, push_str, str_eq};

verus! {

/// `id:value` for every setting of every SETTINGS frame, in order.
pub open spec fn setting_parts(fs: Seq<FrameView>) -> Seq<Seq<char>>
    decreases fs.len(),
{
    if fs.len() == 0 {
        Seq::empty()
    } else {
        setting_parts(fs.drop_last()) + match fs.last() {
            FrameView::Settings { settings, .. } => settings.map_values(
                |st: crate::http2::Setting| dec(st.id as nat) + ":"@ + dec(st.value as nat),
            ),
            _ => Seq::empty(),
        }
    }
}

/// The increment of the last WINDOW_UPDATE, or `00` without one.
pub open spec fn window_section(fs: Seq<FrameView>) -> Seq<char>
    decreases fs.len(),
{
    if fs.len() == 0 {
        "00"@
    } else {
        match fs.last() {
            FrameView::WindowUpdate(w) => dec(w.window_size_increment as nat),
            _ => window_section(fs.drop_last()),
        }
    }
}

/// `stream_id:exclusive:dep_stream_id:weight` for every PRIORITY frame.
pub open spec fn priority_parts(fs: Seq<FrameView>) -> Seq<Seq<char>>
    decreases fs.len(),
{
    if fs.len() == 0 {
        Seq::empty()
    } else {
        priority_parts(fs.drop_last()) + match fs.last() {
            FrameView::Priority(p) => seq![
                dec(p.stream_id as nat) + ":"@ + dec(if p.priority.exclusive { 1nat } else { 0nat })
                    + ":"@ + dec(p.priority.dep_stream_id as nat) + ":"@ + dec(
                    p.priority.weight as nat,
                ),
            ],
            _ => Seq::empty(),
        }
    }
}

/// The one-letter name of a pseudo-header that the fingerprint records.
pub open spec fn abbrev(name: Seq<char>) -> Option<Seq<char>> {
    if name == ":method"@ {
        Some("m"@)
    } else if name == ":path"@ {
        Some("p"@)
    } else if name == ":authority"@ {
        Some("a"@)
    } else if name == ":scheme"@ {
        Some("s"@)
    } else {
        None
    }
}

/// The one-letter names of the recorded pseudo-headers, in order.
pub open spec fn abbrevs(names: Seq<Seq<char>>) -> Seq<Seq<char>>
    decreases names.len(),
{
    if names.len() == 0 {
        Seq::empty()
    } else {
        abbrevs(names.drop_last()) + match abbrev(names.last()) {
            Some(a) => seq![a],
            None => Seq::empty(),
        }
    }
}

/// The recorded pseudo-headers of the last HEADERS frame.
pub open spec fn header_order(fs: Seq<FrameView>) -> Seq<Seq<char>>
    decreases fs.len(),
{
    if fs.len() == 0 {
        Seq::empty()
    } else {
        match fs.last() {
            FrameView::Headers { pseudo_headers, .. } => abbrevs(pseudo_headers),
            _ => header_order(fs.drop_last()),
        }
    }
}

pub open spec fn settings_section(fs: Seq<FrameView>) -> Seq<char> {
    join(setting_parts(fs), ";"@)
}

pub open spec fn priority_section(fs: Seq<FrameView>) -> Seq<char> {
    if priority_parts(fs).len() == 0 {
        "0"@
    } else {
        join(priority_parts(fs), ","@)
    }
}

/// `|` and the header order, or nothing when no name is recorded.
pub open spec fn header_section(fs: Seq<FrameView>) -> Seq<char> {
    if header_order(fs).len() == 0 {
        Seq::empty()
    } else {
        "|"@ + join(header_order(fs), ","@)
    }
}

/// `SETTINGS|WINDOW_UPDATE|PRIORITIES` followed by the header section.
pub open spec fn akamai_text(fs: Seq<FrameView>) -> Seq<char> {
    settings_section(fs) + "|"@ + window_section(fs) + "|"@ + priority_section(fs) + header_section(fs)
}

/// The Akamai fingerprint: the text and its SHA-1.
#[derive(Clone, Debug)]
pub struct Akamai {
    pub sha1: String,
    pub str: String,
}

fn dec_string(n: u64) -> (r: String)
    ensures
        r@ == dec(n as nat),
{
    let mut s = String::new();
    push_dec(&mut s, n);
    s
}

fn abbrev_of(name: &str) -> (r: Option<&'static str>)
    ensures
        match abbrev(name@) {
            Some(a) => r is Some && r->0@ == a,
            None => r is None,
        },
{
    if str_eq(name, ":method") {
        Some("m")
    } else if str_eq(name, ":path") {
        Some("p")
    } else if str_eq(name, ":authority") {
        Some("a")
    } else if str_eq(name, ":scheme") {
        Some("s")
    } else {
        None
    }
}

fn header_abbrevs(names: &Vec<String>) -> (r: Vec<String>)
    ensures
        r.deep_view() == abbrevs(names.deep_view()),
{
    let ghost nv = names.deep_view();
    let mut out: Vec<String> = Vec::new();
    let mut i: usize = 0;
    while i < names.len()
        invariant
            i <= names.len(),
            nv == names.deep_view(),
            out.deep_view() == abbrevs(nv.take(i as int)),
        decreases names.len() - i,
    {
        assert(nv.take(i + 1).drop_last() =~= nv.take(i as int));
        assert(nv.take(i + 1).last() == names@[i as int]@);
        let ghost before = out.deep_view();
        match abbrev_of(names[i].as_str()) {
            Some(a) => {
                out.push(a.to_owned());
                assert(out.deep_view() =~= before + seq![a@]);
            },
            None => {
                assert(before =~= before + Seq::<Seq<char>>::empty());
            },
        }
        i += 1;
    }
    assert(nv.take(i as int) =~= nv);
    out
}

fn push_setting_parts(out: &mut Vec<String>, settings: &Vec<crate::http2::Setting>)
    ensures
        final(out).deep_view() == old(out).deep_view() + settings@.map_values(
            |st: crate::http2::Setting| dec(st.id as nat) + ":"@ + dec(st.value as nat),
        ),
{
    let ghost parts = settings@.map_values(
        |st: crate::http2::Setting| dec(st.id as nat) + ":"@ + dec(st.value as nat),
    );
    let mut i: usize = 0;
    while i < settings.len()
        invariant
            i <= settings.len(),
            parts == settings@.map_values(
                |st: crate::http2::Setting| dec(st.id as nat) + ":"@ + dec(st.value as nat),
            ),
            out.deep_view() == old(out).deep_view() + parts.take(i as int),
        decreases settings.len() - i,
    {
        let st = settings[i];
        let mut s = String::new();
        push_dec(&mut s, st.id as u64);
        push_str(&mut s, ":");
        push_dec(&mut s, st.value as u64);
        let ghost before = out.deep_view();
        out.push(s);
        assert(out.deep_view() =~= before.push(parts[i as int]));
        assert(old(out).deep_view() + parts.take(i + 1) =~= (old(out).deep_view() + parts.take(
            i as int,
        )).push(parts[i as int]));
        i += 1;
    }
    assert(parts.take(i as int) =~= parts);
}

impl Akamai {
    /// The Akamai text of the frame log, and its SHA-1.
    pub fn new(frames: &[Frame]) -> (r: Self)
        ensures
            r.str@ == akamai_text(frames_view(frames@)),
            r.sha1@ == sha1_hex_of(r.str@),
    {
        let ghost fv = frames_view(frames@);
        let mut settings: Vec<String> = Vec::new();
        let mut window_update = "00".to_owned();
        let mut priority_frames: Vec<String> = Vec::new();
        let mut headers: Vec<String> = Vec::new();
        let mut i: usize = 0;
        while i < frames.len()
            invariant
                i <= frames.len(),
                fv == frames_view(frames@),
                settings.deep_view() == setting_parts(fv.take(i as int)),
                window_update@ == window_section(fv.take(i as int)),
                priority_frames.deep_view() == priority_parts(fv.take(i as int)),
                headers.deep_view() == header_order(fv.take(i as int)),
            decreases frames.len() - i,
        {
            let ghost t = fv.take(i + 1);
            assert(t.drop_last() =~= fv.take(i as int));
            assert(t.last() == frames@[i as int]@);
            match &frames[i] {
                Frame::Settings(f) => {
                    push_setting_parts(&mut settings, &f.settings);
                },
                Frame::WindowUpdate(f) => {
                    window_update = dec_string(f.window_size_increment as u64);
                    assert(settings.deep_view() =~= setting_parts(t));
                    assert(priority_frames.deep_view() =~= priority_parts(t));
                },
                Frame::Priority(f) => {
                    let mut s = String::new();
                    push_dec(&mut s, f.stream_id as u64);
                    push_str(&mut s, ":");
                    push_dec(&mut s, if f.priority.exclusive { 1 } else { 0 });
                    push_str(&mut s, ":");
                    push_dec(&mut s, f.priority.dep_stream_id as u64);
                    push_str(&mut s, ":");
                    push_dec(&mut s, f.priority.weight as u64);
                    let ghost before = priority_frames.deep_view();
                    priority_frames.push(s);
                    assert(priority_frames.deep_view() =~= priority_parts(t));
                    assert(settings.deep_view() =~= setting_parts(t));
                },
                Frame::Headers(f) => {
                    headers = header_abbrevs(&f.pseudo_headers);
                    assert(settings.deep_view() =~= setting_parts(t));
                    assert(priority_frames.deep_view() =~= priority_parts(t));
                },
                Frame::Unknown(_) => {
                    assert(settings.deep_view() =~= setting_parts(t));
                    assert(priority_frames.deep_view() =~= priority_parts(t));
                },
            }
            i += 1;
        }
        assert(fv.take(i as int) =~= fv);
        let mut s = String::new();
        push_joined(&mut s, &settings, ";");
        push_str(&mut s, "|");
        push_str(&mut s, window_update.as_str());
        push_str(&mut s, "|");
        if priority_frames.len() == 0 {
            push_str(&mut s, "0");
        } else {
            push_joined(&mut s, &priority_frames, ",");
        }
        if headers.len() > 0 {
            push_str(&mut s, "|");
            push_joined(&mut s, &headers, ",");
        }
        assert(s@ =~= akamai_text(fv));
        let sha1 = sha1_hex(s.as_str());
        Akamai { sha1, str: s }
    }
}

/// Without a WINDOW_UPDATE frame the window section is `00`.
pub proof fn lemma_no_window_update(fs: Seq<FrameView>)
    requires
        forall|i: int| 0 <= i < fs.len() ==> !(#[trigger] fs[i] is WindowUpdate),
    ensures
        window_section(fs) == "00"@,
    decreases fs.len(),
{
    if fs.len() > 0 {
        assert(!(fs[fs.len() - 1] is WindowUpdate));
        let d = fs.drop_last();
        assert forall|i: int| 0 <= i < d.len() implies !(#[trigger] d[i] is WindowUpdate) by {
            assert(d[i] == fs[i]);
        }
        lemma_no_window_update(d);
    }
}

/// Without a PRIORITY frame the priority section is `0`.
pub proof fn lemma_no_priority(fs: Seq<FrameView>)
    requires
        forall|i: int| 0 <= i < fs.len() ==> !(#[trigger] fs[i] is Priority),
    ensures
        priority_parts(fs).len() == 0,
        priority_section(fs) == "0"@,
    decreases fs.len(),
{
    if fs.len() > 0 {
        assert(!(fs[fs.len() - 1] is Priority));
        let d = fs.drop_last();
        assert forall|i: int| 0 <= i < d.len() implies !(#[trigger] d[i] is Priority) by {
            assert(d[i] == fs[i]);
        }
        lemma_no_priority(d);
    }
}

/// Without a HEADERS frame the text ends with the priority section.
pub proof fn lemma_no_headers(fs: Seq<FrameView>)
    requires
        forall|i: int| 0 <= i < fs.len() ==> !(#[trigger] fs[i] is Headers),
    ensures
        header_section(fs) == Seq::<char>::empty(),
        akamai_text(fs) == settings_section(fs) + "|"@ + window_section(fs) + "|"@
            + priority_section(fs),
    decreases fs.len(),
{
    if fs.len() > 0 {
        assert(!(fs[fs.len() - 1] is Headers));
        let d = fs.drop_last();
        assert forall|i: int| 0 <= i < d.len() implies !(#[trigger] d[i] is Headers) by {
            assert(d[i] == fs[i]);
        }
        lemma_no_headers(d);
    }
    assert(akamai_text(fs) =~= settings_section(fs) + "|"@ + window_section(fs) + "|"@
        + priority_section(fs));
}

/// When no recorded pseudo-header is left to report, the text ends with
/// the priority section.
pub proof fn lemma_no_header_order(fs: Seq<FrameView>)
    requires
        header_order(fs).len() == 0,
    ensures
        header_section(fs) == Seq::<char>::empty(),
        akamai_text(fs) == settings_section(fs) + "|"@ + window_section(fs) + "|"@
            + priority_section(fs),
{
    assert(akamai_text(fs) =~= settings_section(fs) + "|"@ + window_section(fs) + "|"@
        + priority_section(fs));
}

proof fn lemma_abbrevs_none(names: Seq<Seq<char>>)
    requires
        forall|i: int| 0 <= i < names.len() ==> #[trigger] abbrev(names[i]) is None,
    ensures
        abbrevs(names).len() == 0,
    decreases names.len(),
{
    if names.len() > 0 {
        let d = names.drop_last();
        assert forall|i: int| 0 <= i < d.len() implies #[trigger] abbrev(d[i]) is None by {
            assert(d[i] == names[i]);
        }
        lemma_abbrevs_none(d);
        assert(abbrev(names[names.len() - 1]) is None);
    }
}

/// When the last HEADERS frame carries none of `:method`, `:path`,
/// `:authority` and `:scheme`, the text ends with the priority section.
pub proof fn lemma_last_headers_unrecorded(fs: Seq<FrameView>, k: int)
    requires
        0 <= k < fs.len(),
        fs[k] is Headers,
        forall|j: int| k < j < fs.len() ==> !(#[trigger] fs[j] is Headers),
        forall|i: int|
            0 <= i < fs[k]->Headers_pseudo_headers.len() ==> #[trigger] abbrev(
                fs[k]->Headers_pseudo_headers[i],
            ) is None,
    ensures
        header_order(fs).len() == 0,
        header_section(fs) == Seq::<char>::empty(),
        akamai_text(fs) == settings_section(fs) + "|"@ + window_section(fs) + "|"@
            + priority_section(fs),
    decreases fs.len(),
{
    if k == fs.len() - 1 {
        lemma_abbrevs_none(fs[k]->Headers_pseudo_headers);
    } else {
        let d = fs.drop_last();
        assert(!(fs[fs.len() - 1] is Headers));
        assert(d[k] == fs[k]);
        assert forall|j: int| k < j < d.len() implies !(#[trigger] d[j] is Headers) by {
            assert(d[j] == fs[j]);
        }
        lemma_last_headers_unrecorded(d, k);
    }
    lemma_no_header_order(fs);
}

} // verus!
