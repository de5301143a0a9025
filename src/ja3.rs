//! JA3 and sorted-extension JA3 of a ClientHello.
use vstd::prelude::*;
use crate::digest::{md5_hex, md5_hex_of, sha1_hex_of};
use crate::json::canon;
use crate::ts1::hello_json;
use crate::sort::{
    distinct, key_order, keys_sorted, lemma_sort_from_distinct, lemma_sort_from_facts,
    lemma_sort_from_sorted, sorted_positions,
};
use crate::text::{dec, dec_joined, push_dec, push_dec_joined, push_str};
use crate::tls::{
    is_grease, is_not_grease, point_formats, read_point_formats, read_supported_groups,
    scan_hello, supported_groups, Extension, ExtensionView, HelloView, TlsHandshake,
    EC_POINT_FORMATS, SUPPORTED_GROUPS,
};

verus! {

/// The codes that are not GREASE, in order.
pub open spec fn non_grease(s: Seq<u16>) -> Seq<u16>
    decreases s.len(),
{
    if s.len() == 0 {
        Seq::empty()
    } else if is_grease(s.last()) {
        non_grease(s.drop_last())
    } else {
        non_grease(s.drop_last()).push(s.last())
    }
}

pub open spec fn widen16(s: Seq<u16>) -> Seq<u64> {
    s.map_values(|c: u16| c as u64)
}

pub open spec fn widen8(s: Seq<u8>) -> Seq<u64> {
    s.map_values(|c: u8| c as u64)
}

/// The type codes of the extensions, in order.
pub open spec fn ext_codes(exts: Seq<ExtensionView>) -> Seq<u16> {
    exts.map_values(|e: ExtensionView| e.typ)
}

/// Decimal renderings of the codes.
pub open spec fn dec_keys(s: Seq<u16>) -> Seq<Seq<char>> {
    s.map_values(|c: u16| dec(c as nat))
}

/// The codes ordered by their decimal renderings, as text sorts them.
pub open spec fn sorted_codes(s: Seq<u16>) -> Seq<u16> {
    key_order(dec_keys(s)).map_values(|k: usize| s[k as int])
}

/// The extensions field of JA3: the non-GREASE extension codes, sorted by
/// their decimal text when `sort_ext`.
pub open spec fn ja3_extensions(exts: Seq<ExtensionView>, sort_ext: bool) -> Seq<char> {
    let codes = non_grease(ext_codes(exts));
    if sort_ext {
        dec_joined(widen16(sorted_codes(codes)), seq!['-'])
    } else {
        dec_joined(widen16(codes), seq!['-'])
    }
}

/// `version,ciphers,extensions,curves,points`, GREASE codes left out of
/// ciphers, extensions and curves.
pub open spec fn ja3_text(h: HelloView, sort_ext: bool) -> Seq<char> {
    dec(h.handshake_version as nat) + seq![',']
        + dec_joined(widen16(non_grease(h.cipher_suites)), seq!['-']) + seq![',']
        + ja3_extensions(h.extensions, sort_ext) + seq![',']
        + dec_joined(widen16(non_grease(supported_groups(h.extensions))), seq!['-']) + seq![',']
        + dec_joined(widen8(point_formats(h.extensions)), seq!['-'])
}

/// A JA3 fingerprint: the text and its MD5.
#[derive(Clone, Debug)]
pub struct Ja3 {
    pub md5: String,
    pub str: String,
}

fn non_grease_codes(v: &Vec<u16>) -> (r: Vec<u64>)
    ensures
        r@ == widen16(non_grease(v@)),
{
    let mut out: Vec<u64> = Vec::new();
    let mut i: usize = 0;
    while i < v.len()
        invariant
            i <= v.len(),
            out@ == widen16(non_grease(v@.take(i as int))),
        decreases v.len() - i,
    {
        assert(v@.take(i + 1).drop_last() =~= v@.take(i as int));
        assert(v@.take(i + 1).last() == v@[i as int]);
        if is_not_grease(&v[i]) {
            out.push(v[i] as u64);
            assert(out@ =~= widen16(non_grease(v@.take(i + 1))));
        }
        i += 1;
    }
    assert(v@.take(i as int) =~= v@);
    out
}

fn widen_u8s(v: &Vec<u8>) -> (r: Vec<u64>)
    ensures
        r@ == widen8(v@),
{
    let mut out: Vec<u64> = Vec::new();
    let mut i: usize = 0;
    while i < v.len()
        invariant
            i <= v.len(),
            out@ =~= widen8(v@.take(i as int)),
        decreases v.len() - i,
    {
        out.push(v[i] as u64);
        i += 1;
    }
    assert(v@.take(i as int) =~= v@);
    out
}

fn codes_of(exts: &Vec<Extension>) -> (r: Vec<u16>)
    ensures
        r@ == ext_codes(exts@.map_values(|e: Extension| e@)),
{
    let mut out: Vec<u16> = Vec::new();
    let mut i: usize = 0;
    while i < exts.len()
        invariant
            i <= exts.len(),
            out@ =~= ext_codes(exts@.map_values(|e: Extension| e@).take(i as int)),
        decreases exts.len() - i,
    {
        out.push(exts[i].typ);
        i += 1;
    }
    assert(exts@.map_values(|e: Extension| e@).take(i as int) =~= exts@.map_values(
        |e: Extension| e@,
    ));
    out
}

/// Appends the non-GREASE codes `codes` ordered by decimal text, joined
/// with `-`.
fn push_sorted_codes(s: &mut String, codes: &Vec<u64>, Ghost(c16): Ghost<Seq<u16>>)
    requires
        codes@ == widen16(c16),
    ensures
        final(s)@ == old(s)@ + dec_joined(widen16(sorted_codes(c16)), seq!['-']),
{
    let mut keys: Vec<String> = Vec::new();
    let mut i: usize = 0;
    while i < codes.len()
        invariant
            i <= codes.len(),
            codes@ == widen16(c16),
            keys.deep_view() =~= dec_keys(c16).take(i as int),
        decreases codes.len() - i,
    {
        let mut k = String::new();
        push_dec(&mut k, codes[i]);
        let ghost before = keys.deep_view();
        keys.push(k);
        proof {
            assert(keys.deep_view() =~= before.push(dec(c16[i as int] as nat)));
            assert(dec_keys(c16).take(i + 1) =~= dec_keys(c16).take(i as int).push(
                dec(c16[i as int] as nat),
            ));
        }
        i += 1;
    }
    assert(dec_keys(c16).take(i as int) =~= dec_keys(c16));
    let order = sorted_positions(&keys);
    proof {
        crate::sort::lemma_sort_from_facts(dec_keys(c16), 0);
    }
    let mut sorted: Vec<u64> = Vec::new();
    let mut j: usize = 0;
    while j < order.len()
        invariant
            j <= order.len(),
            order@ == key_order(dec_keys(c16)),
            order@.len() == c16.len(),
            codes@ == widen16(c16),
            forall|k: int| 0 <= k < order@.len() ==> 0 <= #[trigger] order@[k] < c16.len(),
            sorted@ =~= widen16(sorted_codes(c16)).take(j as int),
        decreases order.len() - j,
    {
        sorted.push(codes[order[j]]);
        j += 1;
    }
    assert(widen16(sorted_codes(c16)).take(j as int) =~= widen16(sorted_codes(c16)));
    proof {
        reveal_strlit("-");
        assert("-"@ =~= seq!['-']);
    }
    push_dec_joined(s, &sorted, "-");
}

impl Ja3 {
    /// The JA3 text of `hello` and its MD5; with `sort_ext` the extension
    /// codes are sorted by their decimal text.
    pub fn new(hello: &TlsHandshake, sort_ext: bool) -> (r: Self)
        ensures
            r.str@ == ja3_text(hello@, sort_ext),
            r.md5@ == md5_hex_of(r.str@),
    {
        proof {
            reveal_strlit("-");
            reveal_strlit(",");
            assert("-"@ =~= seq!['-']);
            assert(","@ =~= seq![',']);
        }
        let mut s = String::new();
        push_dec(&mut s, hello.handshake_version as u64);
        push_str(&mut s, ",");
        let ciphers = non_grease_codes(&hello.cipher_suites);
        push_dec_joined(&mut s, &ciphers, "-");
        push_str(&mut s, ",");
        let codes = codes_of(&hello.extensions);
        let exts = non_grease_codes(&codes);
        if sort_ext {
            push_sorted_codes(&mut s, &exts, Ghost(non_grease(codes@)));
        } else {
            push_dec_joined(&mut s, &exts, "-");
        }
        push_str(&mut s, ",");
        let groups = read_supported_groups(&hello.extensions);
        let curves = non_grease_codes(&groups);
        push_dec_joined(&mut s, &curves, "-");
        push_str(&mut s, ",");
        let points = read_point_formats(&hello.extensions);
        let points = widen_u8s(&points);
        push_dec_joined(&mut s, &points, "-");
        assert(s@ =~= ja3_text(hello@, sort_ext));
        let md5 = md5_hex(s.as_str());
        Ja3 { md5, str: s }
    }
}

/// Sorting extension codes by their decimal text a second time changes
/// nothing.
pub proof fn lemma_sorted_codes_idempotent(s: Seq<u16>)
    requires
        s.len() <= usize::MAX,
    ensures
        sorted_codes(sorted_codes(s)) == sorted_codes(s),
{
    let keys = dec_keys(s);
    let order = key_order(keys);
    lemma_sort_from_facts(keys, 0);
    let t = sorted_codes(s);
    let tk = dec_keys(t);
    assert forall|i: int| 0 <= i < tk.len() - 1 implies #[trigger] crate::text::lex_le(
        tk[i],
        tk[i + 1],
    ) by {
        assert(crate::text::lex_le(keys[order[i] as int], keys[order[i + 1] as int]));
    }
    assert(keys_sorted(tk));
    lemma_sort_from_sorted(tk, 0);
    assert(sorted_codes(t) =~= t);
}

/// Leaving GREASE codes out of a list ignores a GREASE code inserted
/// anywhere.
pub proof fn lemma_non_grease_insert(s: Seq<u16>, k: int, g: u16)
    requires
        0 <= k <= s.len(),
        is_grease(g),
    ensures
        non_grease(s.insert(k, g)) == non_grease(s),
    decreases s.len(),
{
    let t = s.insert(k, g);
    if k == s.len() {
        assert(t.drop_last() =~= s);
    } else {
        assert(t.drop_last() =~= s.drop_last().insert(k, g));
        assert(t.last() == s.last());
        lemma_non_grease_insert(s.drop_last(), k, g);
    }
}

proof fn lemma_lists_ignore_grease_ext(exts: Seq<ExtensionView>, k: int, e: ExtensionView)
    requires
        0 <= k <= exts.len(),
        is_grease(e.typ),
    ensures
        supported_groups(exts.insert(k, e)) == supported_groups(exts),
        point_formats(exts.insert(k, e)) == point_formats(exts),
    decreases exts.len(),
{
    assert(SUPPORTED_GROUPS & 0x0f0f != 0x0a0a) by (bit_vector);
    assert(EC_POINT_FORMATS & 0x0f0f != 0x0a0a) by (bit_vector);
    let t = exts.insert(k, e);
    if k == exts.len() {
        assert(t.drop_last() =~= exts);
        assert(supported_groups(exts) + Seq::<u16>::empty() =~= supported_groups(exts));
        assert(point_formats(exts) + Seq::<u8>::empty() =~= point_formats(exts));
    } else {
        assert(t.drop_last() =~= exts.drop_last().insert(k, e));
        assert(t.last() == exts.last());
        lemma_lists_ignore_grease_ext(exts.drop_last(), k, e);
    }
}

/// A ClientHello with a GREASE cipher inserted at position `k`.
pub open spec fn with_grease_cipher(h: HelloView, k: int, g: u16) -> HelloView {
    HelloView { cipher_suites: h.cipher_suites.insert(k, g), ..h }
}

/// A ClientHello with a GREASE-typed extension inserted at position `k`.
pub open spec fn with_grease_extension(h: HelloView, k: int, e: ExtensionView) -> HelloView {
    HelloView { extensions: h.extensions.insert(k, e), ..h }
}

/// A GREASE cipher inserted anywhere leaves both JA3 texts, and so both
/// MD5s, as they were; in the TS1 value the cipher list gets `"GREASE"` at
/// that position.
pub proof fn lemma_grease_cipher_invariance(h: HelloView, k: int, g: u16)
    requires
        0 <= k <= h.cipher_suites.len(),
        is_grease(g),
    ensures
        ja3_text(with_grease_cipher(h, k, g), false) == ja3_text(h, false),
        ja3_text(with_grease_cipher(h, k, g), true) == ja3_text(h, true),
        md5_hex_of(ja3_text(with_grease_cipher(h, k, g), false)) == md5_hex_of(ja3_text(h, false)),
        md5_hex_of(ja3_text(with_grease_cipher(h, k, g), true)) == md5_hex_of(ja3_text(h, true)),
        with_grease_cipher(h, k, g).cipher_suites.map_values(|c: u16| crate::ts1::grease_value(c))
            == h.cipher_suites.map_values(|c: u16| crate::ts1::grease_value(c)).insert(
            k,
            crate::json::JsonView::Str("GREASE"@),
        ),
{
    lemma_non_grease_insert(h.cipher_suites, k, g);
    assert(with_grease_cipher(h, k, g).cipher_suites.map_values(
        |c: u16| crate::ts1::grease_value(c),
    ) =~= h.cipher_suites.map_values(|c: u16| crate::ts1::grease_value(c)).insert(
        k,
        crate::json::JsonView::Str("GREASE"@),
    ));
}

/// A GREASE-typed extension inserted anywhere leaves both JA3 texts, and
/// so both MD5s, as they were; in the TS1 value the extension list gets
/// that extension's `GREASE` record at that position.
pub proof fn lemma_grease_extension_invariance(h: HelloView, k: int, e: ExtensionView)
    requires
        0 <= k <= h.extensions.len(),
        is_grease(e.typ),
    ensures
        ja3_text(with_grease_extension(h, k, e), false) == ja3_text(h, false),
        ja3_text(with_grease_extension(h, k, e), true) == ja3_text(h, true),
        md5_hex_of(ja3_text(with_grease_extension(h, k, e), false)) == md5_hex_of(
            ja3_text(h, false),
        ),
        md5_hex_of(ja3_text(with_grease_extension(h, k, e), true)) == md5_hex_of(
            ja3_text(h, true),
        ),
        with_grease_extension(h, k, e).extensions.map_values(
            |x: ExtensionView| crate::json::JsonView::Object(crate::ts1::ext_members(x)),
        ) == h.extensions.map_values(
            |x: ExtensionView| crate::json::JsonView::Object(crate::ts1::ext_members(x)),
        ).insert(k, crate::json::JsonView::Object(crate::ts1::ext_members(e))),
        crate::ts1::ext_members(e)[1] == crate::ts1::type_member("GREASE"@),
{
    let h2 = with_grease_extension(h, k, e);
    assert(ext_codes(h2.extensions) =~= ext_codes(h.extensions).insert(k, e.typ));
    lemma_non_grease_insert(ext_codes(h.extensions), k, e.typ);
    lemma_lists_ignore_grease_ext(h.extensions, k, e);
    let t = e.typ;
    assert(t != 0 && t != 5 && t != 10 && t != 11 && t != 13 && t != 16 && t != 21 && t != 22)
        by (bit_vector)
        requires
            t & 0x0f0f == 0x0a0a,
    ;
    assert(h2.extensions.map_values(
        |x: ExtensionView| crate::json::JsonView::Object(crate::ts1::ext_members(x)),
    ) =~= h.extensions.map_values(
        |x: ExtensionView| crate::json::JsonView::Object(crate::ts1::ext_members(x)),
    ).insert(k, crate::json::JsonView::Object(crate::ts1::ext_members(e))));
}

/// The same bytes give the same ClientHello, and so the same JA3,
/// sorted-JA3 and TS1 digests.
pub proof fn lemma_fingerprints_deterministic(a: Seq<u8>, b: Seq<u8>)
    requires
        a == b,
    ensures
        scan_hello(a) == scan_hello(b),
        scan_hello(a) is Hello ==> {
            let ha = scan_hello(a)->Hello_0;
            let hb = scan_hello(b)->Hello_0;
            &&& md5_hex_of(ja3_text(ha, false)) == md5_hex_of(ja3_text(hb, false))
            &&& md5_hex_of(ja3_text(ha, true)) == md5_hex_of(ja3_text(hb, true))
            &&& sha1_hex_of(canon(hello_json(ha))) == sha1_hex_of(canon(hello_json(hb)))
        },
{
}

/// The JA3 fields before the extensions: `version,ciphers,`.
pub open spec fn ja3_head(h: HelloView) -> Seq<char> {
    dec(h.handshake_version as nat) + seq![','] + dec_joined(
        widen16(non_grease(h.cipher_suites)),
        seq!['-'],
    ) + seq![',']
}

/// The JA3 fields after the extensions: `,curves,points`.
pub open spec fn ja3_tail(h: HelloView) -> Seq<char> {
    seq![','] + dec_joined(widen16(non_grease(supported_groups(h.extensions))), seq!['-']) + seq![
        ',',
    ] + dec_joined(widen8(point_formats(h.extensions)), seq!['-'])
}

/// JA3 and sorted JA3 share every field but the extensions; there the
/// sorted one lists the same codes, each once, ordered by decimal text.
pub proof fn lemma_sorted_ja3_fields(h: HelloView)
    requires
        h.extensions.len() <= usize::MAX,
    ensures
        ja3_text(h, false) == ja3_head(h) + dec_joined(
            widen16(non_grease(ext_codes(h.extensions))),
            seq!['-'],
        ) + ja3_tail(h),
        ja3_text(h, true) == ja3_head(h) + dec_joined(
            widen16(sorted_codes(non_grease(ext_codes(h.extensions)))),
            seq!['-'],
        ) + ja3_tail(h),
        ({
            let c = non_grease(ext_codes(h.extensions));
            let o = key_order(dec_keys(c));
            &&& o.len() == c.len()
            &&& distinct(o)
            &&& forall|j: int| 0 <= j < o.len() ==> 0 <= #[trigger] o[j] < c.len()
            &&& sorted_codes(c).len() == c.len()
            &&& forall|j: int| 0 <= j < c.len() ==> #[trigger] sorted_codes(c)[j] == c[o[j] as int]
            &&& forall|j: int|
                0 <= j < c.len() - 1 ==> crate::text::lex_le(
                    dec(#[trigger] sorted_codes(c)[j] as nat),
                    dec(sorted_codes(c)[j + 1] as nat),
                )
        }),
{
    assert(ja3_text(h, false) =~= ja3_head(h) + dec_joined(
        widen16(non_grease(ext_codes(h.extensions))),
        seq!['-'],
    ) + ja3_tail(h));
    assert(ja3_text(h, true) =~= ja3_head(h) + dec_joined(
        widen16(sorted_codes(non_grease(ext_codes(h.extensions)))),
        seq!['-'],
    ) + ja3_tail(h));
    let c = non_grease(ext_codes(h.extensions));
    lemma_non_grease_len(ext_codes(h.extensions));
    lemma_sort_from_facts(dec_keys(c), 0);
    lemma_sort_from_distinct(dec_keys(c), 0);
    let o = key_order(dec_keys(c));
    assert forall|j: int| 0 <= j < c.len() - 1 implies crate::text::lex_le(
        dec(#[trigger] sorted_codes(c)[j] as nat),
        dec(sorted_codes(c)[j + 1] as nat),
    ) by {
        assert(crate::text::lex_le(dec_keys(c)[o[j] as int], dec_keys(c)[o[j + 1] as int]));
    }
}

proof fn lemma_non_grease_len(s: Seq<u16>)
    ensures
        non_grease(s).len() <= s.len(),
    decreases s.len(),
{
    if s.len() > 0 {
        lemma_non_grease_len(s.drop_last());
    }
}

} // verus!
